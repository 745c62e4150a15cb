//! The store operations: list, add, set, remove, find.
//!
//! Each operation takes the backing file's current text, decodes it, works on
//! the decoded entries, and reports what happened; mutating operations hand
//! back the full new text to write.  Removal relocates the last entry into
//! the removed slot (swap-remove), so `set` leaves the updated entry last.

use vstd::prelude::*;
use crate::codec::encode_snippets;
use crate::codec::entries_view;
use crate::codec::parse_pairs;
use crate::codec::spec_decode;
use crate::codec::spec_encode;
use crate::entry::Entry;
use crate::strutil::contains_str;
use crate::strutil::has_substring;
use crate::strutil::str_eq;
use vstd::string::StrSliceExecFns;

verus! {

/// Index of the first entry whose name is `name`, or `es.len()` if none.
pub open spec fn first_match(es: Seq<(Seq<char>, Seq<char>)>, name: Seq<char>) -> int
    decreases es.len(),
{
    if es.len() == 0 {
        0
    } else if es[0].0 == name {
        0
    } else {
        1 + first_match(es.drop_first(), name)
    }
}

proof fn lemma_first_match_at(es: Seq<(Seq<char>, Seq<char>)>, name: Seq<char>, k: int)
    requires
        0 <= k <= es.len(),
        forall|j: int| 0 <= j < k ==> es[j].0 != name,
        k == es.len() || es[k].0 == name,
    ensures
        first_match(es, name) == k,
    decreases es.len(),
{
    if es.len() > 0 && es[0].0 != name {
        assert forall|j: int| 0 <= j < k - 1 implies es.drop_first()[j].0 != name by {
            assert(es.drop_first()[j] == es[j + 1]);
        }
        lemma_first_match_at(es.drop_first(), name, k - 1);
    }
}

/// Removal by the swap-remove strategy: the last entry moves into slot `i`.
pub open spec fn swap_remove_seq(es: Seq<(Seq<char>, Seq<char>)>, i: int) -> Seq<
    (Seq<char>, Seq<char>),
> {
    es.update(i, es.last()).drop_last()
}

/// What `set` leaves behind: the first matching entry swap-removed (if any),
/// then the new pair appended at the end.
pub open spec fn spec_set(
    es: Seq<(Seq<char>, Seq<char>)>,
    name: Seq<char>,
    value: Seq<char>,
) -> Seq<(Seq<char>, Seq<char>)> {
    let fm = first_match(es, name);
    let base = if fm < es.len() {
        swap_remove_seq(es, fm)
    } else {
        es
    };
    base.push((name, value))
}

/// The values of all entries named `name`, in store order.
pub open spec fn spec_find_values(es: Seq<(Seq<char>, Seq<char>)>, name: Seq<char>) -> Seq<
    Seq<char>,
>
    decreases es.len(),
{
    if es.len() == 0 {
        Seq::empty()
    } else {
        let rest = spec_find_values(es.drop_first(), name);
        if es[0].0 == name {
            seq![es[0].1] + rest
        } else {
            rest
        }
    }
}

/// The entries that a listing shows: all of them, or, under a filter, those
/// whose name contains the filter as a substring.
pub open spec fn spec_list_shown(
    es: Seq<(Seq<char>, Seq<char>)>,
    filter: Option<Seq<char>>,
) -> Seq<(Seq<char>, Seq<char>)>
    decreases es.len(),
{
    if es.len() == 0 {
        Seq::empty()
    } else {
        let rest = spec_list_shown(es.drop_first(), filter);
        let keep = match filter {
            None => true,
            Some(f) => has_substring(es[0].0, f),
        };
        if keep {
            seq![es[0]] + rest
        } else {
            rest
        }
    }
}

/// What a listing reports.
pub enum ListOutcome {
    /// The file's text did not decode.
    SyntaxError,
    /// The entries to print; `notice` asks for the empty-result message,
    /// printed before any listing is attempted.
    Listing { notice: bool, shown: Vec<Entry> },
}

/// What an insertion reports.
pub enum AddOutcome {
    /// An entry of that name already exists with this value; nothing to write.
    Exists { current: String },
    /// The full new file text to write.
    Stored { new_text: String },
}

/// What a removal reports.
pub enum RemoveOutcome {
    /// The file's text did not decode; nothing happens.
    Silent,
    /// No entry of that name exists; nothing to write.
    NotFound,
    /// The full new file text to write.
    Removed { new_text: String },
}

fn find_first(entries: &Vec<Entry>, name: &str) -> (i: usize)
    ensures
        i as int == first_match(entries_view(entries@), name@),
{
    let n: usize = entries.len();
    let mut i: usize = 0;
    while i < n
        invariant
            i <= n,
            n == entries.len(),
            forall|k: int| 0 <= k < i ==> entries_view(entries@)[k].0 != name@,
        decreases n - i,
    {
        if str_eq(entries[i].name.as_str(), name) {
            proof {
                lemma_first_match_at(entries_view(entries@), name@, i as int);
            }
            return i;
        }
        i = i + 1;
    }
    proof {
        lemma_first_match_at(entries_view(entries@), name@, n as int);
    }
    n
}

/// List the store: on undecodable text a syntax error; otherwise the entries
/// to show, kept in order and filtered by substring of the name where a
/// filter is given.  The empty-result notice is asked for exactly when there
/// is nothing to show — a fresh or empty store, or a filter matching nothing.
pub fn list(text: &str, filter: Option<&str>) -> (res: ListOutcome)
    ensures
        ({
            let f = match filter {
                Some(s) => Some(s@),
                None => None::<Seq<char>>,
            };
            if text@.len() == 0 {
                res matches ListOutcome::Listing { notice, shown } && notice && shown@.len() == 0
            } else {
                match spec_decode(text@) {
                    None => res matches ListOutcome::SyntaxError,
                    Some(es) => res matches ListOutcome::Listing { notice, shown } && notice == (
                    spec_list_shown(es, f).len() == 0) && entries_view(shown@) == spec_list_shown(
                        es,
                        f,
                    ),
                }
            }
        }),
{
    if text.unicode_len() == 0 {
        return ListOutcome::Listing { notice: true, shown: Vec::new() };
    }
    match parse_pairs(text) {
        None => ListOutcome::SyntaxError,
        Some(entries) => {
            let ghost es = entries_view(entries@);
            let ghost f = match filter {
                Some(s) => Some(s@),
                None => None::<Seq<char>>,
            };
            let mut shown: Vec<Entry> = Vec::new();
            let mut i: usize = 0;
            proof {
                assert(es.skip(0) =~= es);
                assert(entries_view(shown@) + spec_list_shown(es, f) =~= spec_list_shown(es, f));
            }
            while i < entries.len()
                invariant
                    i <= entries.len(),
                    es == entries_view(entries@),
                    f == (match filter {
                        Some(s) => Some(s@),
                        None => None::<Seq<char>>,
                    }),
                    spec_list_shown(es, f) == entries_view(shown@) + spec_list_shown(
                        es.skip(i as int),
                        f,
                    ),
                decreases entries.len() - i,
            {
                let ghost sv = entries_view(shown@);
                let ghost tail = es.skip(i as int);
                proof {
                    assert(tail[0] == es[i as int]);
                    assert(tail.drop_first() =~= es.skip(i as int + 1));
                }
                let keep = match filter {
                    Some(needle) => contains_str(entries[i].name.as_str(), needle),
                    None => true,
                };
                if keep {
                    shown.push(entries[i].clone());
                    proof {
                        assert(entries_view(shown@) =~= sv.push(es[i as int]));
                        assert(sv.push(es[i as int]) + spec_list_shown(es.skip(i as int + 1), f)
                            =~= sv + (seq![es[i as int]] + spec_list_shown(
                            es.skip(i as int + 1),
                            f,
                        )));
                    }
                }
                i = i + 1;
            }
            proof {
                assert(es.skip(entries.len() as int) =~= Seq::<(Seq<char>, Seq<char>)>::empty());
                assert(entries_view(shown@) + Seq::<(Seq<char>, Seq<char>)>::empty()
                    =~= entries_view(shown@));
            }
            let notice = shown.is_empty();
            ListOutcome::Listing { notice, shown }
        },
    }
}

/// Insert a new entry.  Undecodable (or empty) text is replaced by a store of
/// just the new entry; a name collision leaves the store as it is and reports
/// the existing value; otherwise the entry goes at the end.
pub fn add(text: &str, name: &str, value: &str) -> (res: AddOutcome)
    ensures
        ({
            match spec_decode(text@) {
                None => res matches AddOutcome::Stored { new_text } && new_text@ == spec_encode(
                    seq![(name@, value@)],
                ),
                Some(es) => {
                    let fm = first_match(es, name@);
                    if fm < es.len() {
                        res matches AddOutcome::Exists { current } && current@ == es[fm].1
                    } else {
                        res matches AddOutcome::Stored { new_text } && new_text@ == spec_encode(
                            es.push((name@, value@)),
                        )
                    }
                },
            }
        }),
{
    match parse_pairs(text) {
        None => AddOutcome::Stored { new_text: encode_single(name, value) },
        Some(mut entries) => {
            let ghost es = entries_view(entries@);
            let i = find_first(&entries, name);
            if i < entries.len() {
                AddOutcome::Exists { current: entries[i].value.clone() }
            } else {
                entries.push(Entry::new(name, value));
                proof {
                    assert(entries_view(entries@) =~= es.push((name@, value@)));
                }
                AddOutcome::Stored { new_text: encode_snippets(&entries) }
            }
        },
    }
}

/// Store an entry, replacing by name.  Undecodable (or empty) text is
/// replaced by a store of just the new entry; otherwise the first entry of
/// that name, if any, is swap-removed, and the new pair is appended.
pub fn set(text: &str, name: &str, value: &str) -> (new_text: String)
    ensures
        ({
            match spec_decode(text@) {
                None => new_text@ == spec_encode(seq![(name@, value@)]),
                Some(es) => new_text@ == spec_encode(spec_set(es, name@, value@)),
            }
        }),
{
    match parse_pairs(text) {
        None => encode_single(name, value),
        Some(mut entries) => {
            let ghost es = entries_view(entries@);
            let i = find_first(&entries, name);
            if i < entries.len() {
                entries.swap_remove(i);
                proof {
                    assert(entries_view(entries@) =~= swap_remove_seq(es, i as int));
                }
            }
            let ghost base = entries_view(entries@);
            entries.push(Entry::new(name, value));
            proof {
                assert(entries_view(entries@) =~= base.push((name@, value@)));
            }
            encode_snippets(&entries)
        },
    }
}

/// Remove the first entry of that name, by swap-remove.  Undecodable (or
/// empty) text makes the whole operation a silent no-op; an absent name is
/// reported and nothing is written.
pub fn remove(text: &str, name: &str) -> (res: RemoveOutcome)
    ensures
        ({
            match spec_decode(text@) {
                None => res matches RemoveOutcome::Silent,
                Some(es) => {
                    let fm = first_match(es, name@);
                    if fm < es.len() {
                        res matches RemoveOutcome::Removed { new_text } && new_text@
                            == spec_encode(swap_remove_seq(es, fm))
                    } else {
                        res matches RemoveOutcome::NotFound
                    }
                },
            }
        }),
{
    match parse_pairs(text) {
        None => RemoveOutcome::Silent,
        Some(mut entries) => {
            let ghost es = entries_view(entries@);
            let i = find_first(&entries, name);
            if i < entries.len() {
                entries.swap_remove(i);
                proof {
                    assert(entries_view(entries@) =~= swap_remove_seq(es, i as int));
                }
                RemoveOutcome::Removed { new_text: encode_snippets(&entries) }
            } else {
                RemoveOutcome::NotFound
            }
        },
    }
}

/// The values of every entry whose name equals `name` exactly, in store
/// order; empty where the text does not decode.
pub fn find(text: &str, name: &str) -> (values: Vec<String>)
    ensures
        ({
            match spec_decode(text@) {
                None => values@.len() == 0,
                Some(es) => values.deep_view() == spec_find_values(es, name@),
            }
        }),
{
    match parse_pairs(text) {
        None => Vec::new(),
        Some(entries) => {
            let ghost es = entries_view(entries@);
            let mut values: Vec<String> = Vec::new();
            let mut i: usize = 0;
            proof {
                assert(es.skip(0) =~= es);
                assert(values.deep_view() + spec_find_values(es, name@) =~= spec_find_values(
                    es,
                    name@,
                ));
            }
            while i < entries.len()
                invariant
                    i <= entries.len(),
                    es == entries_view(entries@),
                    spec_find_values(es, name@) == values.deep_view() + spec_find_values(
                        es.skip(i as int),
                        name@,
                    ),
                decreases entries.len() - i,
            {
                let ghost dv = values.deep_view();
                let ghost tail = es.skip(i as int);
                proof {
                    assert(tail[0] == es[i as int]);
                    assert(tail.drop_first() =~= es.skip(i as int + 1));
                }
                if str_eq(entries[i].name.as_str(), name) {
                    values.push(entries[i].value.clone());
                    proof {
                        assert(values.deep_view() =~= dv.push(es[i as int].1));
                        assert(dv.push(es[i as int].1) + spec_find_values(
                            es.skip(i as int + 1),
                            name@,
                        ) =~= dv + (seq![es[i as int].1] + spec_find_values(
                            es.skip(i as int + 1),
                            name@,
                        )));
                    }
                }
                i = i + 1;
            }
            proof {
                assert(es.skip(entries.len() as int) =~= Seq::<(Seq<char>, Seq<char>)>::empty());
                assert(values.deep_view() + Seq::<Seq<char>>::empty() =~= values.deep_view());
            }
            values
        },
    }
}

fn encode_single(name: &str, value: &str) -> (new_text: String)
    ensures
        new_text@ == spec_encode(seq![(name@, value@)]),
{
    let mut entries: Vec<Entry> = Vec::new();
    entries.push(Entry::new(name, value));
    proof {
        assert(entries_view(entries@) =~= seq![(name@, value@)]);
    }
    encode_snippets(&entries)
}

} // verus!
