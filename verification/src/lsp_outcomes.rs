//! What each language-server feature tells the user when its request never
//! reaches the server or is never answered, and how long it waits.

use vstd::prelude::*;

verus! {

/// A position-based language-server feature.
#[derive(Clone, Copy, PartialEq, Eq, Structural, Debug)]
pub enum LspFeature {
    Definition,
    Hover,
    References,
    Completion,
    CodeActions,
    SignatureHelp,
    PrepareRename,
    Rename,
    Formatting,
    FormatOnSave,
    /// A completion item resolved for its documentation.
    ResolveDocs,
    /// A completion item resolved before it is accepted; the accept waits.
    ResolveAccept,
}

/// Why a request could not be put on the wire.
#[derive(Clone, Copy, PartialEq, Eq, Structural, Debug)]
pub enum FeatureGateError {
    /// No server runs for the document.
    NoServer,
    /// The server has not finished its handshake.
    NotReady,
    /// The server does not offer the feature.
    Unsupported,
}

/// What the user is told.
#[derive(Clone, Copy, PartialEq, Eq, Structural, Debug)]
pub enum FeatureOutcome {
    /// Nothing: typing-driven features fail quietly.
    Silent,
    NotSupported,
    StillIndexing,
    /// The server never answered.
    NoResult,
    /// Hover resolves as an empty answer would.
    EmptyContent,
    /// The rename prompt reports that the server cannot rename.
    RenameNotSupported,
    /// The rename prompt reports that the server did not answer.
    RenameNoAnswer,
    /// Formatting resolves without edits: a status message, or for a
    /// format-on-save the unformatted save.
    FormattingUnavailable,
    /// The waiting accept goes ahead with what the item already carried.
    AcceptAsIs,
}

/// The outcome of a request that never reached the server. Completion and
/// signature help stay silent: a message on every keystroke in an unsynced
/// buffer would be noise. A resolve for documentation just drops; one an
/// accept waits for lets the accept go ahead.
pub open spec fn gate_outcome(feature: LspFeature, err: FeatureGateError) -> FeatureOutcome {
    match feature {
        LspFeature::Definition | LspFeature::Hover | LspFeature::References | LspFeature::CodeActions => match err {
            FeatureGateError::NotReady => FeatureOutcome::StillIndexing,
            _ => FeatureOutcome::NotSupported,
        },
        LspFeature::PrepareRename | LspFeature::Rename => FeatureOutcome::RenameNotSupported,
        LspFeature::Formatting | LspFeature::FormatOnSave => FeatureOutcome::FormattingUnavailable,
        LspFeature::ResolveAccept => FeatureOutcome::AcceptAsIs,
        _ => FeatureOutcome::Silent,
    }
}

/// The outcome of a request the server never answered in time.
pub open spec fn timeout_outcome(feature: LspFeature) -> FeatureOutcome {
    match feature {
        LspFeature::Definition | LspFeature::References | LspFeature::CodeActions => FeatureOutcome::NoResult,
        LspFeature::Hover => FeatureOutcome::EmptyContent,
        LspFeature::PrepareRename | LspFeature::Rename => FeatureOutcome::RenameNoAnswer,
        LspFeature::Formatting | LspFeature::FormatOnSave => FeatureOutcome::FormattingUnavailable,
        LspFeature::ResolveAccept => FeatureOutcome::AcceptAsIs,
        _ => FeatureOutcome::Silent,
    }
}

pub fn on_gate_error(feature: LspFeature, err: FeatureGateError) -> (r: FeatureOutcome)
    ensures
        r == gate_outcome(feature, err),
{
    match feature {
        LspFeature::Definition | LspFeature::Hover | LspFeature::References | LspFeature::CodeActions => match err {
            FeatureGateError::NotReady => FeatureOutcome::StillIndexing,
            _ => FeatureOutcome::NotSupported,
        },
        LspFeature::PrepareRename | LspFeature::Rename => FeatureOutcome::RenameNotSupported,
        LspFeature::Formatting | LspFeature::FormatOnSave => FeatureOutcome::FormattingUnavailable,
        LspFeature::ResolveAccept => FeatureOutcome::AcceptAsIs,
        _ => FeatureOutcome::Silent,
    }
}

pub fn on_timeout(feature: LspFeature) -> (r: FeatureOutcome)
    ensures
        r == timeout_outcome(feature),
{
    match feature {
        LspFeature::Definition | LspFeature::References | LspFeature::CodeActions => FeatureOutcome::NoResult,
        LspFeature::Hover => FeatureOutcome::EmptyContent,
        LspFeature::PrepareRename | LspFeature::Rename => FeatureOutcome::RenameNoAnswer,
        LspFeature::Formatting | LspFeature::FormatOnSave => FeatureOutcome::FormattingUnavailable,
        LspFeature::ResolveAccept => FeatureOutcome::AcceptAsIs,
        _ => FeatureOutcome::Silent,
    }
}

/// How long the user waits for an answer, in milliseconds: a cold server
/// legitimately needs long for navigation; typing-driven features give up
/// sooner; a format-on-save never holds the save hostage.
pub open spec fn timeout_spec(feature: LspFeature) -> u64 {
    match feature {
        LspFeature::Definition | LspFeature::Hover | LspFeature::References | LspFeature::PrepareRename
        | LspFeature::Rename => 30_000,
        LspFeature::Completion | LspFeature::SignatureHelp | LspFeature::CodeActions | LspFeature::Formatting => 10_000,
        LspFeature::FormatOnSave => 2_000,
        LspFeature::ResolveDocs | LspFeature::ResolveAccept => 3_000,
    }
}

pub fn feature_timeout_ms(feature: LspFeature) -> (r: u64)
    ensures
        r == timeout_spec(feature),
{
    match feature {
        LspFeature::Definition | LspFeature::Hover | LspFeature::References | LspFeature::PrepareRename
        | LspFeature::Rename => 30_000,
        LspFeature::Completion | LspFeature::SignatureHelp | LspFeature::CodeActions | LspFeature::Formatting => 10_000,
        LspFeature::FormatOnSave => 2_000,
        LspFeature::ResolveDocs | LspFeature::ResolveAccept => 3_000,
    }
}

/// The message the rename prompt shows, for the rename outcomes.
pub fn rename_message(outcome: FeatureOutcome) -> (r: Option<&'static str>)
    ensures
        outcome == FeatureOutcome::RenameNotSupported ==> r == Some("Rename not supported by this server"),
        outcome == FeatureOutcome::RenameNoAnswer ==> r == Some("Rename: server did not answer"),
        outcome != FeatureOutcome::RenameNotSupported && outcome != FeatureOutcome::RenameNoAnswer ==> r is None,
{
    match outcome {
        FeatureOutcome::RenameNotSupported => Some("Rename not supported by this server"),
        FeatureOutcome::RenameNoAnswer => Some("Rename: server did not answer"),
        _ => None,
    }
}

/// Debounce before a completion request goes out, in milliseconds.
pub const COMPLETION_DEBOUNCE_MS: u64 = 120;

/// Debounce before a documentation resolve goes out, in milliseconds.
pub const RESOLVE_DEBOUNCE_MS: u64 = 150;

/// Locations a usages popup shows at most.
pub const MAX_REFERENCE_LOCATIONS: usize = 200;

/// Typing-driven features never flash a message, whatever went wrong.
pub proof fn law_typing_driven_features_fail_silently(feature: LspFeature, err: FeatureGateError)
    requires
        feature == LspFeature::Completion || feature == LspFeature::SignatureHelp,
    ensures
        gate_outcome(feature, err) == FeatureOutcome::Silent,
        timeout_outcome(feature) == FeatureOutcome::Silent,
{
}

/// A server without the feature and no server at all are told apart from
/// a server still starting: only the latter asks the user to wait.
pub proof fn law_only_a_starting_server_reports_indexing(feature: LspFeature, err: FeatureGateError)
    ensures
        gate_outcome(feature, err) == FeatureOutcome::StillIndexing <==> (err == FeatureGateError::NotReady && (
        feature == LspFeature::Definition || feature == LspFeature::Hover || feature == LspFeature::References
            || feature == LspFeature::CodeActions)),
{
}


/// An accept that waits for a resolve is never left blocked: when the
/// resolve cannot be sent, or is never answered, the accept goes ahead with
/// what the item carried. A documentation resolve just drops.
pub proof fn law_a_waiting_accept_always_goes_ahead(err: FeatureGateError)
    ensures
        gate_outcome(LspFeature::ResolveAccept, err) == FeatureOutcome::AcceptAsIs,
        timeout_outcome(LspFeature::ResolveAccept) == FeatureOutcome::AcceptAsIs,
        gate_outcome(LspFeature::ResolveDocs, err) == FeatureOutcome::Silent,
        timeout_outcome(LspFeature::ResolveDocs) == FeatureOutcome::Silent,
{
}


/// What the user is told of an answer that did come back.
#[derive(Clone, Copy, PartialEq, Eq, Structural, Debug)]
pub enum AnswerOutcome {
    /// Show what the server found (for hover, possibly nothing).
    Found,
    /// The server is still starting or indexing: an empty answer means it
    /// has not finished analysing, not that nothing is there.
    StillIndexing,
    /// The server is ready and found nothing.
    NoResult,
}

/// The outcome of an answer from a server that is `indexing` (starting or
/// indexing) or not. An empty answer before the server is ready never says
/// "not found"; a hover answer is shown as it is once the server is ready.
pub open spec fn answer_spec(feature: LspFeature, empty: bool, indexing: bool) -> AnswerOutcome {
    if !empty {
        AnswerOutcome::Found
    } else if indexing {
        AnswerOutcome::StillIndexing
    } else if feature == LspFeature::Hover {
        AnswerOutcome::Found
    } else {
        AnswerOutcome::NoResult
    }
}

/// See `answer_spec`; for definition, hover and references answers.
pub fn answer_outcome(feature: LspFeature, empty: bool, indexing: bool) -> (r: AnswerOutcome)
    ensures
        r == answer_spec(feature, empty, indexing),
{
    if !empty {
        AnswerOutcome::Found
    } else if indexing {
        AnswerOutcome::StillIndexing
    } else if feature == LspFeature::Hover {
        AnswerOutcome::Found
    } else {
        AnswerOutcome::NoResult
    }
}

/// Before its server is ready, an empty answer never reads as "nothing
/// found".
pub proof fn law_no_not_found_before_ready(feature: LspFeature, empty: bool)
    ensures
        answer_spec(feature, empty, true) != AnswerOutcome::NoResult,
{
}

/// Features the user invokes on purpose and then waits for: navigation and
/// code actions.
pub open spec fn is_explicit_navigation(feature: LspFeature) -> bool {
    ||| feature == LspFeature::Definition
    ||| feature == LspFeature::Hover
    ||| feature == LspFeature::References
    ||| feature == LspFeature::CodeActions
}

/// Features that run in the background of typing or of a popup, whose
/// failure nobody waits to hear about.
pub open spec fn is_background(feature: LspFeature) -> bool {
    ||| feature == LspFeature::Completion
    ||| feature == LspFeature::SignatureHelp
    ||| feature == LspFeature::ResolveDocs
}

/// An explicitly requested navigation feature is always answered when its
/// request cannot be sent: a server still starting asks the user to wait,
/// and a missing server or one without the feature both say it is not
/// supported. It is never dropped silently.
pub proof fn law_explicit_requests_report_why_they_failed(feature: LspFeature, err: FeatureGateError)
    requires
        is_explicit_navigation(feature),
    ensures
        err == FeatureGateError::NotReady ==> gate_outcome(feature, err) == FeatureOutcome::StillIndexing,
        err != FeatureGateError::NotReady ==> gate_outcome(feature, err) == FeatureOutcome::NotSupported,
        gate_outcome(feature, FeatureGateError::NoServer) == gate_outcome(feature, FeatureGateError::Unsupported),
        gate_outcome(feature, err) != FeatureOutcome::Silent,
{
}

/// A navigation request the server never answers resolves as an empty
/// answer from a ready server would: "no result" for definition, references
/// and code actions, an empty card for hover. The user who waits always
/// hears back.
pub proof fn law_a_timeout_reads_as_an_empty_answer(feature: LspFeature)
    requires
        is_explicit_navigation(feature),
    ensures
        answer_spec(feature, true, false) == AnswerOutcome::NoResult ==> timeout_outcome(feature)
            == FeatureOutcome::NoResult,
        answer_spec(feature, true, false) == AnswerOutcome::Found ==> timeout_outcome(feature)
            == FeatureOutcome::EmptyContent,
        timeout_outcome(feature) != FeatureOutcome::Silent,
{
}

/// Silence is kept for background features: a request fails without a word,
/// whether it could not be sent or was never answered, exactly when nobody
/// waits for it.
pub proof fn law_only_background_requests_fail_silently(feature: LspFeature, err: FeatureGateError)
    ensures
        gate_outcome(feature, err) == FeatureOutcome::Silent <==> is_background(feature),
        timeout_outcome(feature) == FeatureOutcome::Silent <==> is_background(feature),
{
}

/// Rename and formatting always resolve: a rename prompt says the server
/// cannot rename or did not answer, and formatting goes on unformatted, on
/// a gate error and on a timeout alike.
pub proof fn law_rename_and_formatting_always_resolve(feature: LspFeature, err: FeatureGateError)
    ensures
        feature == LspFeature::PrepareRename || feature == LspFeature::Rename ==> gate_outcome(feature, err)
            == FeatureOutcome::RenameNotSupported && timeout_outcome(feature) == FeatureOutcome::RenameNoAnswer,
        feature == LspFeature::Formatting || feature == LspFeature::FormatOnSave ==> gate_outcome(feature, err)
            == FeatureOutcome::FormattingUnavailable && timeout_outcome(feature) == FeatureOutcome::FormattingUnavailable,
{
}

/// How long each request waits before it counts as unanswered: navigation
/// (and rename) gives a cold server 30 s; typing-driven requests, code
/// actions and formatting give up after 10 s; item resolves after 3 s; and
/// a format-on-save, which holds the save back, waits least of all.
pub proof fn law_waits_are_ordered_by_who_is_waiting(nav: LspFeature, quick: LspFeature)
    requires
        nav == LspFeature::Definition || nav == LspFeature::Hover || nav == LspFeature::References
            || nav == LspFeature::PrepareRename || nav == LspFeature::Rename,
        quick == LspFeature::Completion || quick == LspFeature::SignatureHelp || quick == LspFeature::CodeActions
            || quick == LspFeature::Formatting,
    ensures
        timeout_spec(nav) == 30_000,
        timeout_spec(quick) == 10_000,
        timeout_spec(LspFeature::ResolveDocs) == 3_000 && timeout_spec(LspFeature::ResolveAccept) == 3_000,
        timeout_spec(LspFeature::FormatOnSave) < timeout_spec(LspFeature::ResolveAccept) < timeout_spec(quick)
            < timeout_spec(nav),
{
}

/// An answer that came back is shown whenever it holds something; an empty
/// one says "nothing found" only when the server is ready and the feature is
/// not hover, whose empty card is shown as it is.
pub proof fn law_answers_are_shown_unless_empty(feature: LspFeature, empty: bool, indexing: bool)
    ensures
        !empty ==> answer_spec(feature, empty, indexing) == AnswerOutcome::Found,
        answer_spec(feature, empty, indexing) == AnswerOutcome::NoResult <==> (empty && !indexing && feature
            != LspFeature::Hover),
        answer_spec(feature, empty, indexing) == AnswerOutcome::StillIndexing <==> (empty && indexing),
{
}

} // verus!
