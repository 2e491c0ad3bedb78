//! Projection of syntax errors and document errors into the diagnostic
//! records that an editor shows.

use vstd::prelude::*;
use vstd::string::*;
use crate::coords::{range_at, Mapper, Range};
use crate::error::{error_models, syntax_error_models, Error, ErrorModel, SyntaxError, SyntaxErrorModel};
use crate::builder::{build, build_model};
use crate::dom::Dom;
use crate::key::Key;
use crate::parser::Parse;

verus! {

/// The identifier of a document, as `url::Url` (re-exported by `lsp_types`)
/// holds it. The library only carries such a value through.
#[verifier::external_type_specification]
#[verifier::external_body]
pub struct ExUrl(lsp_types::Url);

/// `<url::Url as Clone>::clone`, which `derive` wrote for a struct of a
/// string and offsets into it: the copy equals the value that was copied.
pub assume_specification[ <lsp_types::Url as Clone>::clone ](uri: &lsp_types::Url) -> (r:
    lsp_types::Url)
    ensures
        r == *uri,
;

/// How grave a diagnostic is.
#[derive(Clone, Copy, Debug, PartialEq, Eq, Structural, Hash)]
pub enum DiagnosticSeverity {
    Error,
    Warning,
    Information,
    Hint,
}

/// A place in a document.
#[derive(Clone, Debug, PartialEq)]
pub struct Location {
    pub uri: lsp_types::Url,
    pub range: Range,
}

/// A second place that a diagnostic refers to, with what it says of it.
#[derive(Clone, Debug, PartialEq)]
pub struct DiagnosticRelatedInformation {
    pub location: Location,
    pub message: String,
}

/// One record of the list shown by the editor.
#[derive(Clone, Debug, PartialEq)]
pub struct Diagnostic {
    pub range: Range,
    pub severity: DiagnosticSeverity,
    pub source: String,
    pub message: String,
    pub related_information: Option<Vec<DiagnosticRelatedInformation>>,
}

/// What a related place is, as plain values.
pub struct RelatedModel {
    pub uri: lsp_types::Url,
    pub range: Range,
    pub message: Seq<char>,
}

/// What a diagnostic is, as plain values.
pub struct DiagnosticModel {
    pub range: Range,
    pub severity: DiagnosticSeverity,
    pub source: Seq<char>,
    pub message: Seq<char>,
    pub related: Option<Seq<RelatedModel>>,
}

impl View for DiagnosticRelatedInformation {
    type V = RelatedModel;

    open spec fn view(&self) -> RelatedModel {
        RelatedModel {
            uri: self.location.uri,
            range: self.location.range,
            message: self.message@,
        }
    }
}

/// The models of a run of related places.
pub open spec fn related_models(s: Seq<DiagnosticRelatedInformation>) -> Seq<RelatedModel> {
    Seq::new(s.len(), |i: int| s[i]@)
}

impl View for Diagnostic {
    type V = DiagnosticModel;

    open spec fn view(&self) -> DiagnosticModel {
        DiagnosticModel {
            range: self.range,
            severity: self.severity,
            source: self.source@,
            message: self.message@,
            related: match self.related_information {
                Some(v) => Some(related_models(v@)),
                None => None,
            },
        }
    }
}

/// The models of a run of diagnostics.
pub open spec fn diagnostic_models(s: Seq<Diagnostic>) -> Seq<DiagnosticModel> {
    Seq::new(s.len(), |i: int| s[i]@)
}

/// The name under which every diagnostic is reported.
pub open spec fn tool_name() -> Seq<char> {
    "Even Better TOML"@
}

/// A diagnostic at one place.
pub open spec fn plain(range: Range, message: Seq<char>) -> DiagnosticModel {
    DiagnosticModel {
        range,
        severity: DiagnosticSeverity::Error,
        source: tool_name(),
        message,
        related: None,
    }
}

/// A diagnostic at one place that refers to a second place of the same
/// document.
pub open spec fn cross(
    range: Range,
    message: Seq<char>,
    uri: lsp_types::Url,
    other: Range,
    note: Seq<char>,
) -> DiagnosticModel {
    DiagnosticModel {
        range,
        severity: DiagnosticSeverity::Error,
        source: tool_name(),
        message,
        related: Some(seq![RelatedModel { uri, range: other, message: note }]),
    }
}

/// The diagnostics of one document error: located by the positions of the
/// keys it names, in a text with the given bytes.
pub open spec fn diagnostics_of_error(uri: lsp_types::Url, error: ErrorModel, bytes: Seq<u8>) -> Seq<
    DiagnosticModel,
> {
    match error {
        ErrorModel::DuplicateKey { first, second } => {
            let a: Range = range_at(bytes, first.text_range());
            let b: Range = range_at(bytes, second.text_range());
            let message: Seq<char> = "duplicate key \""@ + first.full_key() + "\""@;
            seq![
                cross(a, message, uri, b, "other declaration"@),
                cross(b, message, uri, a, "first declaration"@),
            ]
        },
        ErrorModel::ExpectedTable { target, key } => {
            let a: Range = range_at(bytes, target.text_range());
            let b: Range = range_at(bytes, key.text_range());
            seq![
                cross(
                    a,
                    "expected table for \""@ + target.full_key() + "\""@,
                    uri,
                    b,
                    "required by \""@ + key.full_key() + "\""@,
                ),
            ]
        },
        ErrorModel::ExpectedTableArray { target, key } => {
            let a: Range = range_at(bytes, target.text_range());
            let b: Range = range_at(bytes, key.text_range());
            let message: Seq<char> = "array conflicts with array of tables"@;
            seq![
                cross(a, message, uri, b, "array of tables declaration"@),
                cross(b, message, uri, a, "array declaration"@),
            ]
        },
        ErrorModel::InlineTable { target, key } => {
            let a: Range = range_at(bytes, target.text_range());
            let b: Range = range_at(bytes, key.text_range());
            let message: Seq<char> = "inline table cannot be modified"@;
            seq![
                cross(a, message, uri, b, "modified here by \""@ + key.full_key() + "\""@),
                cross(b, message, uri, a, "inline table \""@ + key.full_key() + "\" here"@),
            ]
        },
        ErrorModel::Spanned { range, message } => seq![plain(range_at(bytes, range), message)],
        ErrorModel::Generic(_) => Seq::<DiagnosticModel>::empty(),
    }
}

/// The diagnostics of a run of document errors, in the order of the errors.
pub open spec fn diagnostics_of_errors(
    uri: lsp_types::Url,
    errors: Seq<ErrorModel>,
    bytes: Seq<u8>,
) -> Seq<DiagnosticModel>
    decreases errors.len(),
{
    if errors.len() == 0 {
        Seq::<DiagnosticModel>::empty()
    } else {
        diagnostics_of_errors(uri, errors.drop_last(), bytes) + diagnostics_of_error(
            uri,
            errors.last(),
            bytes,
        )
    }
}

/// The diagnostics of a run of syntax errors: one for each, at its own place.
pub open spec fn diagnostics_of_syntax(errors: Seq<SyntaxErrorModel>, bytes: Seq<u8>) -> Seq<
    DiagnosticModel,
> {
    Seq::new(errors.len(), |i: int| plain(range_at(bytes, errors[i].range), errors[i].message))
}

/// Every place named by the errors lies within a text of `len` bytes.
pub open spec fn all_within(
    syntax_errors: Seq<SyntaxErrorModel>,
    errors: Seq<ErrorModel>,
    len: int,
) -> bool {
    &&& forall|i: int| 0 <= i < syntax_errors.len() ==> (#[trigger] syntax_errors[i]).range.fits(len)
    &&& forall|i: int| 0 <= i < errors.len() ==> (#[trigger] errors[i]).within(len)
}

fn tool() -> (s: String)
    ensures
        s@ == tool_name(),
{
    String::from_str("Even Better TOML")
}

fn quoted(lead: &str, key: &Key, tail: &str) -> (s: String)
    ensures
        s@ == lead@ + key@.full_key() + tail@,
{
    let mut s: String = String::from_str(lead);
    let k: String = key.full_key();
    s.append(k.as_str());
    s.append(tail);
    s
}

fn make_plain(range: Range, message: String) -> (d: Diagnostic)
    ensures
        d@ == plain(range, message@),
{
    Diagnostic {
        range,
        severity: DiagnosticSeverity::Error,
        source: tool(),
        message,
        related_information: None,
    }
}

fn make_cross(range: Range, message: String, uri: &lsp_types::Url, other: Range, note: String) -> (d:
    Diagnostic)
    ensures
        d@ == cross(range, message@, *uri, other, note@),
{
    let mut related: Vec<DiagnosticRelatedInformation> = Vec::new();
    related.push(
        DiagnosticRelatedInformation {
            location: Location { uri: uri.clone(), range: other },
            message: note,
        },
    );
    let d: Diagnostic = Diagnostic {
        range,
        severity: DiagnosticSeverity::Error,
        source: tool(),
        message,
        related_information: Some(related),
    };
    assert(related_models(related@) =~= seq![
        RelatedModel { uri: *uri, range: other, message: note@ },
    ]);
    d
}

/// Whether every place named by `error` lies within a text of `len` bytes.
pub fn error_within(error: &Error, len: usize) -> (b: bool)
    ensures
        b == error@.within(len as int),
{
    match error {
        Error::DuplicateKey { first, second } => {
            let a = first.text_range();
            let b = second.text_range();
            a.start <= len && a.end <= len && b.start <= len && b.end <= len
        },
        Error::ExpectedTable { target, key } => {
            let a = target.text_range();
            let b = key.text_range();
            a.start <= len && a.end <= len && b.start <= len && b.end <= len
        },
        Error::ExpectedTableArray { target, key } => {
            let a = target.text_range();
            let b = key.text_range();
            a.start <= len && a.end <= len && b.start <= len && b.end <= len
        },
        Error::InlineTable { target, key } => {
            let a = target.text_range();
            let b = key.text_range();
            a.start <= len && a.end <= len && b.start <= len && b.end <= len
        },
        Error::Spanned { range, .. } => range.start <= len && range.end <= len,
        Error::Generic(_) => true,
    }
}

/// Appends the diagnostics of one document error to `out`.
pub fn push_error_diagnostics(
    out: &mut Vec<Diagnostic>,
    uri: &lsp_types::Url,
    error: &Error,
    mapper: &Mapper,
)
    requires
        error@.within(mapper.spec_len() as int),
    ensures
        diagnostic_models(final(out)@) == diagnostic_models(old(out)@) + diagnostics_of_error(
            *uri,
            error@,
            mapper.spec_bytes(),
        ),
{
    let ghost before: Seq<Diagnostic> = out@;
    let ghost bytes: Seq<u8> = mapper.spec_bytes();
    match error {
        Error::DuplicateKey { first, second } => {
            let a: Range = mapper.range_of(first.text_range());
            let b: Range = mapper.range_of(second.text_range());
            let d0: Diagnostic = make_cross(
                a,
                quoted("duplicate key \"", first, "\""),
                uri,
                b,
                String::from_str("other declaration"),
            );
            let d1: Diagnostic = make_cross(
                b,
                quoted("duplicate key \"", first, "\""),
                uri,
                a,
                String::from_str("first declaration"),
            );
            out.push(d0);
            out.push(d1);
            assert(diagnostic_models(out@) =~= diagnostic_models(before) + seq![d0@, d1@]);
        },
        Error::ExpectedTable { target, key } => {
            let a: Range = mapper.range_of(target.text_range());
            let b: Range = mapper.range_of(key.text_range());
            let d0: Diagnostic = make_cross(
                a,
                quoted("expected table for \"", target, "\""),
                uri,
                b,
                quoted("required by \"", key, "\""),
            );
            out.push(d0);
            assert(diagnostic_models(out@) =~= diagnostic_models(before) + seq![d0@]);
        },
        Error::ExpectedTableArray { target, key } => {
            let a: Range = mapper.range_of(target.text_range());
            let b: Range = mapper.range_of(key.text_range());
            let d0: Diagnostic = make_cross(
                a,
                String::from_str("array conflicts with array of tables"),
                uri,
                b,
                String::from_str("array of tables declaration"),
            );
            let d1: Diagnostic = make_cross(
                b,
                String::from_str("array conflicts with array of tables"),
                uri,
                a,
                String::from_str("array declaration"),
            );
            out.push(d0);
            out.push(d1);
            assert(diagnostic_models(out@) =~= diagnostic_models(before) + seq![d0@, d1@]);
        },
        Error::InlineTable { target, key } => {
            let a: Range = mapper.range_of(target.text_range());
            let b: Range = mapper.range_of(key.text_range());
            let d0: Diagnostic = make_cross(
                a,
                String::from_str("inline table cannot be modified"),
                uri,
                b,
                quoted("modified here by \"", key, "\""),
            );
            let d1: Diagnostic = make_cross(
                b,
                String::from_str("inline table cannot be modified"),
                uri,
                a,
                quoted("inline table \"", key, "\" here"),
            );
            out.push(d0);
            out.push(d1);
            assert(diagnostic_models(out@) =~= diagnostic_models(before) + seq![d0@, d1@]);
        },
        Error::Spanned { range, message } => {
            let r: Range = mapper.range_of(*range);
            let d0: Diagnostic = make_plain(r, message.clone());
            out.push(d0);
            assert(diagnostic_models(out@) =~= diagnostic_models(before) + seq![d0@]);
        },
        Error::Generic(_) => {
            assert(diagnostic_models(out@) =~= diagnostic_models(before)
                + Seq::<DiagnosticModel>::empty());
        },
    }
}

/// Whether `mapper` can place everything that the errors name.
pub fn mappable(syntax_errors: &Vec<SyntaxError>, errors: &Vec<Error>, mapper: &Mapper) -> (b: bool)
    ensures
        b == all_within(
            syntax_error_models(syntax_errors@),
            error_models(errors@),
            mapper.spec_len() as int,
        ),
{
    let len: usize = mapper.len();
    let mut i: usize = 0;
    while i < syntax_errors.len()
        invariant
            i <= syntax_errors.len(),
            len == mapper.spec_len(),
            forall|j: int|
                0 <= j < i ==> (#[trigger] syntax_error_models(syntax_errors@)[j]).range.fits(
                    len as int,
                ),
        decreases syntax_errors.len() - i,
    {
        let r = syntax_errors[i].range;
        if !(r.start <= len && r.end <= len) {
            assert(!syntax_error_models(syntax_errors@)[i as int].range.fits(len as int));
            return false;
        }
        i += 1;
    }
    let mut k: usize = 0;
    while k < errors.len()
        invariant
            k <= errors.len(),
            len == mapper.spec_len(),
            forall|j: int| 0 <= j < k ==> (#[trigger] error_models(errors@)[j]).within(len as int),
        decreases errors.len() - k,
    {
        if !error_within(&errors[k], len) {
            assert(!error_models(errors@)[k as int].within(len as int));
            return false;
        }
        k += 1;
    }
    true
}

/// Flattens syntax errors and document errors into one list of diagnostics:
/// first one for each syntax error, then those of each document error, both
/// in the order given.
pub fn project_diagnostics(
    uri: &lsp_types::Url,
    syntax_errors: &Vec<SyntaxError>,
    errors: &Vec<Error>,
    mapper: &Mapper,
) -> (out: Vec<Diagnostic>)
    requires
        all_within(
            syntax_error_models(syntax_errors@),
            error_models(errors@),
            mapper.spec_len() as int,
        ),
    ensures
        diagnostic_models(out@) == diagnostics_of_syntax(
            syntax_error_models(syntax_errors@),
            mapper.spec_bytes(),
        ) + diagnostics_of_errors(*uri, error_models(errors@), mapper.spec_bytes()),
{
    let ghost bytes: Seq<u8> = mapper.spec_bytes();
    let ghost smodels: Seq<SyntaxErrorModel> = syntax_error_models(syntax_errors@);
    let ghost emodels: Seq<ErrorModel> = error_models(errors@);
    let mut out: Vec<Diagnostic> = Vec::new();
    let mut i: usize = 0;
    while i < syntax_errors.len()
        invariant
            i <= syntax_errors.len(),
            bytes == mapper.spec_bytes(),
            smodels == syntax_error_models(syntax_errors@),
            forall|j: int| 0 <= j < smodels.len() ==> (#[trigger] smodels[j]).range.fits(
                mapper.spec_len() as int,
            ),
            out@.len() == i,
            diagnostic_models(out@) == diagnostics_of_syntax(smodels, bytes).subrange(0, i as int),
        decreases syntax_errors.len() - i,
    {
        let e: &SyntaxError = &syntax_errors[i];
        assert(smodels[i as int] == e@);
        let r: Range = mapper.range_of(e.range);
        let d: Diagnostic = make_plain(r, e.message.clone());
        let ghost prev: Seq<Diagnostic> = out@;
        out.push(d);
        proof {
            let all: Seq<DiagnosticModel> = diagnostics_of_syntax(smodels, bytes);
            assert(all[i as int] == d@);
            assert(out@[i as int] == d);
            assert forall|j: int| 0 <= j < i implies diagnostic_models(out@)[j] == all[j] by {
                assert(diagnostic_models(prev)[j] == all.subrange(0, i as int)[j]);
            }
            assert(diagnostic_models(out@) =~= all.subrange(0, i + 1));
        }
        i += 1;
    }
    assert(diagnostics_of_syntax(smodels, bytes).subrange(0, i as int) =~= diagnostics_of_syntax(
        smodels,
        bytes,
    ));
    let ghost head: Seq<DiagnosticModel> = diagnostics_of_syntax(smodels, bytes);
    let mut k: usize = 0;
    assert(emodels.subrange(0, 0) =~= Seq::<ErrorModel>::empty());
    while k < errors.len()
        invariant
            k <= errors.len(),
            bytes == mapper.spec_bytes(),
            emodels == error_models(errors@),
            forall|j: int| 0 <= j < emodels.len() ==> (#[trigger] emodels[j]).within(
                mapper.spec_len() as int,
            ),
            diagnostic_models(out@) == head + diagnostics_of_errors(
                *uri,
                emodels.subrange(0, k as int),
                bytes,
            ),
        decreases errors.len() - k,
    {
        assert(emodels[k as int] == errors@[k as int]@);
        push_error_diagnostics(&mut out, uri, &errors[k], mapper);
        proof {
            let next: Seq<ErrorModel> = emodels.subrange(0, k + 1);
            assert(next.drop_last() =~= emodels.subrange(0, k as int));
            assert(next.last() == emodels[k as int]);
        }
        k += 1;
    }
    assert(emodels.subrange(0, k as int) =~= emodels);
    out
}

/// Whether `mapper` can place every span that the diagnostics of `parse`
/// name: those of its syntax errors, and those of the errors that building
/// its document model finds.
pub open spec fn serves(mapper: &Mapper, parse: &Parse) -> bool {
    all_within(
        syntax_error_models(parse.errors@),
        build_model(parse.root).errors,
        mapper.spec_len() as int,
    )
}

/// Whether `mapper` can place every span that the diagnostics of `parse`
/// name.
pub fn can_serve(mapper: &Mapper, parse: &Parse) -> (b: bool)
    ensures
        b == serves(mapper, parse),
{
    let dom: Dom = build(&parse.root);
    mappable(&parse.errors, dom.errors(), mapper)
}

/// The diagnostics of a parsed document: one for each syntax error, then
/// those of the errors that building the document model finds, each in the
/// order in which it was found. Every span that they name has to be one
/// that the mapper can place.
pub fn collect_diagnostics(uri: &lsp_types::Url, parse: &Parse, mapper: &Mapper) -> (out: Vec<
    Diagnostic,
>)
    requires
        serves(mapper, parse),
    ensures
        diagnostic_models(out@) == diagnostics_of_syntax(
            syntax_error_models(parse.errors@),
            mapper.spec_bytes(),
        ) + diagnostics_of_errors(*uri, build_model(parse.root).errors, mapper.spec_bytes()),
{
    let dom: Dom = build(&parse.root);
    project_diagnostics(uri, &parse.errors, dom.errors(), mapper)
}

/// How many diagnostics an error gives: two for a duplicate key, for an
/// array against an array of tables and for a write into an inline table,
/// one for an expected table and for a free-form error with a place, none for
/// an error without a place.
pub open spec fn diagnostic_count(error: ErrorModel) -> nat {
    match error {
        ErrorModel::DuplicateKey { .. } => 2,
        ErrorModel::ExpectedTable { .. } => 1,
        ErrorModel::ExpectedTableArray { .. } => 2,
        ErrorModel::InlineTable { .. } => 2,
        ErrorModel::Spanned { .. } => 1,
        ErrorModel::Generic(_) => 0,
    }
}

/// The diagnostics of the first `n` errors together.
pub open spec fn diagnostic_total(errors: Seq<ErrorModel>, n: int) -> nat
    decreases n,
{
    if n <= 0 || n > errors.len() {
        0
    } else {
        diagnostic_total(errors, n - 1) + diagnostic_count(errors[n - 1])
    }
}

/// Nothing is lost and nothing is added: the list holds one diagnostic for
/// each syntax error and, for each document error, as many as its variant
/// gives.
pub proof fn lemma_diagnostic_count(
    uri: lsp_types::Url,
    syntax_errors: Seq<SyntaxErrorModel>,
    errors: Seq<ErrorModel>,
    bytes: Seq<u8>,
)
    ensures
        diagnostics_of_error(uri, errors.last(), bytes).len() == diagnostic_count(errors.last()),
        (diagnostics_of_syntax(syntax_errors, bytes) + diagnostics_of_errors(
            uri,
            errors,
            bytes,
        )).len() == syntax_errors.len() + diagnostic_total(errors, errors.len() as int),
    decreases errors.len(),
{
    if errors.len() > 0 {
        lemma_diagnostic_count(uri, syntax_errors, errors.drop_last(), bytes);
        lemma_total_prefix(errors, errors.drop_last(), errors.len() - 1);
    }
}

proof fn lemma_total_prefix(a: Seq<ErrorModel>, b: Seq<ErrorModel>, n: int)
    requires
        0 <= n <= a.len(),
        n <= b.len(),
        forall|i: int| 0 <= i < n ==> a[i] == b[i],
    ensures
        diagnostic_total(a, n) == diagnostic_total(b, n),
    decreases n,
{
    if n > 0 {
        lemma_total_prefix(a, b, n - 1);
    }
}

/// A document without syntax errors, in which building the model finds
/// nothing that has a place, has no diagnostics.
pub proof fn lemma_no_errors_no_diagnostics(
    uri: lsp_types::Url,
    syntax_errors: Seq<SyntaxErrorModel>,
    errors: Seq<ErrorModel>,
    bytes: Seq<u8>,
)
    requires
        syntax_errors.len() == 0,
        forall|i: int| 0 <= i < errors.len() ==> !(#[trigger] errors[i]).located(),
    ensures
        diagnostics_of_syntax(syntax_errors, bytes) + diagnostics_of_errors(uri, errors, bytes)
            == Seq::<DiagnosticModel>::empty(),
    decreases errors.len(),
{
    if errors.len() > 0 {
        assert forall|i: int| 0 <= i < errors.drop_last().len() implies !(
        #[trigger] errors.drop_last()[i]).located() by {
            assert(errors.drop_last()[i] == errors[i]);
        }
        lemma_no_errors_no_diagnostics(uri, syntax_errors, errors.drop_last(), bytes);
        assert(!errors[errors.len() - 1].located());
    }
    assert(diagnostics_of_syntax(syntax_errors, bytes) + diagnostics_of_errors(uri, errors, bytes)
        =~= Seq::<DiagnosticModel>::empty());
}

/// The two diagnostics of a conflict belong together: an error that names
/// two places with one message gives two diagnostics with that message, the
/// first at the one place and the second at the other, and each cites the
/// place of the other, in the same document, as its one related place.
pub proof fn lemma_pairs_cross_reference(uri: lsp_types::Url, error: ErrorModel, bytes: Seq<u8>)
    requires
        error is DuplicateKey || error is ExpectedTableArray || error is InlineTable,
    ensures
        ({
            let list: Seq<DiagnosticModel> = diagnostics_of_error(uri, error, bytes);
            &&& list.len() == 2
            &&& list[0].message == list[1].message
            &&& list[0].related matches Some(a) && a.len() == 1 && a[0].range == list[1].range
                && a[0].uri == uri
            &&& list[1].related matches Some(b) && b.len() == 1 && b[0].range == list[0].range
                && b[0].uri == uri
        }),
{
}

/// Every diagnostic is an error and names the tool as its source.
pub proof fn lemma_all_are_errors(
    uri: lsp_types::Url,
    syntax_errors: Seq<SyntaxErrorModel>,
    errors: Seq<ErrorModel>,
    bytes: Seq<u8>,
    i: int,
)
    requires
        0 <= i < (diagnostics_of_syntax(syntax_errors, bytes) + diagnostics_of_errors(
            uri,
            errors,
            bytes,
        )).len(),
    ensures
        ({
            let d: DiagnosticModel = (diagnostics_of_syntax(syntax_errors, bytes)
                + diagnostics_of_errors(uri, errors, bytes))[i];
            d.severity == DiagnosticSeverity::Error && d.source == tool_name()
        }),
    decreases errors.len(),
{
    let head: Seq<DiagnosticModel> = diagnostics_of_syntax(syntax_errors, bytes);
    if i >= head.len() && errors.len() > 0 {
        let before: Seq<DiagnosticModel> = diagnostics_of_errors(uri, errors.drop_last(), bytes);
        if i < head.len() + before.len() {
            lemma_all_are_errors(uri, syntax_errors, errors.drop_last(), bytes, i);
        }
    }
}

} // verus!
