//! What the daemon promises of its settings, its roots and its process.
use crate::server::admission::clamped;
use crate::server::daemon_core::{
    compaction_due, live_docs, new_deltas, next_load, served_in_shutdown, watched_of, IndexMeta,
    LoadStep, LoadedIndex, RootState,
};
use crate::server::pid::{pid_in, trimmed, trimmed_end, PidError};
use crate::server::protocol::Request;
use crate::server::watcher::{default_config, setting};
use crate::text::{
    decimal_of_decimal_text, decimal_text, is_digit, lemma_span_is, unsigned, white_space,
};
use vstd::prelude::*;

verus! {

/// A setting comes from its variable where that spells a number, else from the
/// file, else it has its default.
pub proof fn settings_have_their_order(
    n: nat,
    text: Seq<char>,
    file: Option<nat>,
    default: nat,
    max: nat,
)
    requires
        n <= max,
    ensures
        setting(Some(decimal_text(n)), file, default, max) == n,
        unsigned(text, max) is None ==> setting(Some(text), file, default, max) == setting(
            None,
            file,
            default,
            max,
        ),
        file is Some ==> setting(None, file, default, max) == file->0,
        setting(None, None, default, max) == default,
{
    decimal_of_decimal_text(n);
}

/// Where nothing is set, changes are gathered for a millisecond and written once
/// they are quiet; fifteen delta segments are merged, and an index of which three
/// tenths have changed is rebuilt.
pub proof fn settings_have_their_defaults()
    ensures
        default_config().debounce_ms == 1,
        default_config().delta_flush_interval_secs == 0,
        default_config().merge_segment_threshold == 15,
        default_config().rebuild_threshold_percent == 30,
{
}

/// A number that is held within bounds lies within them, is itself where it did,
/// and keeps its order to others.
pub proof fn bounds_hold(n: int, m: int, low: int, high: int)
    requires
        low <= high,
    ensures
        low <= clamped(n, low, high) <= high,
        low <= n <= high ==> clamped(n, low, high) == n,
        n <= m ==> clamped(n, low, high) <= clamped(m, low, high),
{
}

/// An index is compacted when more than fifteen in a hundred of its documents
/// were removed, or when as many delta segments as the threshold have come since
/// the last time; otherwise it is left alone.
pub proof fn worn_indexes_are_compacted(meta: IndexMeta, threshold: usize)
    ensures
        meta.tombstone_count * 100 > meta.doc_count * 15 && meta.doc_count > 0 ==> compaction_due(
            meta,
            threshold,
        ),
        meta.delta_segments@.len() >= meta.delta_baseline + threshold ==> compaction_due(
            meta,
            threshold,
        ),
        meta.tombstone_count * 100 <= meta.doc_count * 15 && threshold > 0
            && meta.delta_segments@.len() < meta.delta_baseline + threshold ==> !compaction_due(
            meta,
            threshold,
        ),
        meta.delta_segments@.len() <= meta.delta_baseline ==> new_deltas(meta) == 0,
{
}

/// A root that is loaded, and watched where roots are, is ready even while the
/// daemon shuts down; no other root is then opened or watched.
pub proof fn no_root_is_loaded_in_shutdown(state: RootState, watch_enabled: bool)
    ensures
        next_load(state, watch_enabled, true) == LoadStep::Ready || next_load(
            state,
            watch_enabled,
            true,
        ) == LoadStep::Refuse,
        next_load(state, watch_enabled, true) == LoadStep::Ready <==> next_load(
            state,
            watch_enabled,
            false,
        ) == LoadStep::Ready,
        next_load(state, watch_enabled, false) != LoadStep::Refuse,
        !state.loaded ==> next_load(state, watch_enabled, false) == LoadStep::Open,
{
}

/// While the daemon shuts down it still says how it is and takes the request to
/// shut down; no search is served.
pub proof fn no_search_is_served_in_shutdown(request: Request)
    ensures
        request is Search || request is ContentSearch ==> !served_in_shutdown(request),
        request is Ping || request is Status || request is Shutdown ==> served_in_shutdown(request),
{
}

/// The roots that are said to be watched are those that are.
pub proof fn watched_roots_are_named(v: Seq<LoadedIndex>, n: nat, root: Seq<char>)
    requires
        n <= v.len(),
    ensures
        watched_of(v, n).contains(root) <==> exists|i: int|
            0 <= i < n && (#[trigger] v[i]).watching && v[i].root@ == root,
    decreases n,
{
    if n > 0 {
        let m = (n - 1) as nat;
        watched_roots_are_named(v, m, root);
        let before = watched_of(v, m);
        let all = watched_of(v, n);
        if before.contains(root) {
            let k = choose|k: int| 0 <= k < before.len() && before[k] == root;
            assert(all[k] == root);
        }
        if all.contains(root) {
            let k = choose|k: int| 0 <= k < all.len() && all[k] == root;
            if k < before.len() {
                assert(before[k] == root);
            } else {
                assert(v[n - 1].watching);
            }
        }
        if v[n - 1].watching && v[n - 1].root@ == root {
            assert(all[before.len() as int] == root);
        }
    }
}

/// Number of valid documents of the first `n` indexes.
pub open spec fn documents(v: Seq<LoadedIndex>, n: nat) -> nat
    decreases n,
{
    if n == 0 {
        0
    } else {
        documents(v, (n - 1) as nat) + v[n - 1].live_docs as nat
    }
}

/// The number of documents that is reported is that of all indexes together, as
/// long as 32 bits hold it, and else the largest number they hold.
pub proof fn documents_are_counted(v: Seq<LoadedIndex>, n: nat)
    requires
        n <= v.len(),
    ensures
        documents(v, n) <= u32::MAX ==> live_docs(v, n) == documents(v, n),
        documents(v, n) > u32::MAX ==> live_docs(v, n) == u32::MAX,
    decreases n,
{
    if n > 0 {
        documents_are_counted(v, (n - 1) as nat);
    }
}

/// Whether a text is white space alone.
pub open spec fn is_blank(s: Seq<char>) -> bool {
    forall|i: int| 0 <= i < s.len() ==> white_space(#[trigger] s[i])
}

proof fn lemma_trimmed_end(s: Seq<char>, after: Seq<char>)
    requires
        is_blank(after),
        s.len() > 0 ==> !white_space(s.last()),
    ensures
        trimmed_end(s + after) == s,
    decreases after.len(),
{
    if after.len() == 0 {
        assert(s + after =~= s);
    } else {
        assert((s + after).last() == after[after.len() - 1]);
        assert((s + after).drop_last() =~= s + after.drop_last());
        lemma_trimmed_end(s, after.drop_last());
    }
}

/// White space round a text is left away, and nothing else.
pub proof fn white_space_is_trimmed(before: Seq<char>, text: Seq<char>, after: Seq<char>)
    requires
        is_blank(before),
        is_blank(after),
        text.len() > 0,
        !white_space(text[0]),
        !white_space(text.last()),
    ensures
        trimmed(before + text + after) == text,
{
    let all = before + text + after;
    let p = |c: char| white_space(c);
    assert forall|i: int| 0 <= i < before.len() implies p(#[trigger] all[i]) by {
        assert(all[i] == before[i]);
    }
    assert(all[before.len() as int] == text[0]);
    lemma_span_is(all, p, before.len() as int);
    assert(all.skip(before.len() as int) =~= text + after);
    lemma_trimmed_end(text, after);
}

/// The number of a process is read as it was written, whatever white space
/// stands round it; zero is refused, and so is a negative number.
pub proof fn process_numbers_are_read_back(
    n: nat,
    max: nat,
    signed: bool,
    before: Seq<char>,
    after: Seq<char>,
)
    requires
        is_blank(before),
        is_blank(after),
        n <= max,
    ensures
        n > 0 ==> pid_in(before + decimal_text(n) + after, max, signed) == Ok::<nat, PidError>(n),
        pid_in(before + decimal_text(0) + after, max, signed) == Err::<nat, PidError>(
            PidError::NotPositive,
        ),
        pid_in(before + (seq!['-'] + decimal_text(n)) + after, max, true) == Err::<nat, PidError>(
            PidError::NotPositive,
        ),
{
    decimal_of_decimal_text(n);
    decimal_of_decimal_text(0);
    let text = decimal_text(n);
    assert(is_digit(text[0]) && is_digit(text[text.len() - 1]));
    white_space_is_trimmed(before, text, after);
    assert(is_digit(decimal_text(0)[0]) && is_digit(decimal_text(0)[decimal_text(0).len() - 1]));
    white_space_is_trimmed(before, decimal_text(0), after);
    let negative = seq!['-'] + text;
    assert(negative[negative.len() - 1] == text[text.len() - 1]);
    assert(negative.skip(1) =~= text);
    white_space_is_trimmed(before, negative, after);
}

} // verus!
