//! The record codec.
//!
//! A store file holds one record per line: the name, then the value wrapped
//! in single-quote delimiters.  Decoding splits the text on newlines, locates
//! the first delimiter of each line, trims both halves, and strips the value's
//! surrounding delimiters; any malformed line fails the whole decode.
//! Encoding writes each entry back as `<name> '<value>'` plus a newline.

use vstd::prelude::*;
use vstd::string::StrSliceExecFns;
use vstd::string::StringExecFns;
use crate::entry::Entry;
use crate::strutil::first_index;
use crate::strutil::is_space;
use crate::strutil::lemma_first_index_at;
use crate::strutil::lemma_trim_end_at;
use crate::strutil::lemma_trim_start_at;
use crate::strutil::spec_trim;
use crate::strutil::trim_str;

verus! {

broadcast use crate::strutil::lemma_first_index;

/// The mathematical content of a sequence of entries.
pub open spec fn entries_view(es: Seq<Entry>) -> Seq<(Seq<char>, Seq<char>)> {
    es.map_values(|e: Entry| e@)
}

/// How one line decodes: split at the first delimiter (which must exist and
/// must not come first), trim both halves, and strip the value's surrounding
/// delimiters; `None` if any of that fails.
pub open spec fn spec_parse_line(l: Seq<char>) -> Option<(Seq<char>, Seq<char>)> {
    let p = first_index(l, '\'');
    if p == l.len() || p == 0 {
        None
    } else {
        let name = spec_trim(l.subrange(0, p));
        let raw = spec_trim(l.subrange(p, l.len() as int));
        if raw.len() >= 2 && raw[0] == '\'' && raw[raw.len() - 1] == '\'' {
            Some((name, raw.subrange(1, raw.len() - 1)))
        } else {
            None
        }
    }
}

/// Decoding of the text remaining after some lines were already consumed:
/// an exhausted text yields no further entries; otherwise the next line (up
/// to the next newline or the end) must parse, and the rest follows.
pub open spec fn spec_decode_rec(t: Seq<char>) -> Option<Seq<(Seq<char>, Seq<char>)>>
    decreases t.len(),
{
    if t.len() == 0 {
        Some(Seq::empty())
    } else {
        let i = first_index(t, '\n');
        let rest = if i == t.len() {
            Seq::<char>::empty()
        } else {
            t.subrange(i + 1, t.len() as int)
        };
        match spec_parse_line(t.subrange(0, i)) {
            None => None,
            Some(pair) => match spec_decode_rec(rest) {
                None => None,
                Some(pairs) => Some(seq![pair] + pairs),
            },
        }
    }
}

/// Whole-file decoding.  Empty text yields no decoded store at all (the
/// callers treat that as an absent store); otherwise every line must parse.
pub open spec fn spec_decode(t: Seq<char>) -> Option<Seq<(Seq<char>, Seq<char>)>> {
    if t.len() == 0 {
        None
    } else {
        spec_decode_rec(t)
    }
}

/// The encoded form of one entry: `<name> '<value>'` and a newline.
pub open spec fn encode_line(name: Seq<char>, value: Seq<char>) -> Seq<char> {
    name + seq![' ', '\''] + value + seq!['\'', '\n']
}

/// The encoded form of a sequence of entries, in order.
pub open spec fn spec_encode(es: Seq<(Seq<char>, Seq<char>)>) -> Seq<char>
    decreases es.len(),
{
    if es.len() == 0 {
        Seq::empty()
    } else {
        encode_line(es[0].0, es[0].1) + spec_encode(es.drop_first())
    }
}

fn parse_line(line: &str) -> (res: Option<Entry>)
    ensures
        match res {
            Some(e) => spec_parse_line(line@) == Some(e@),
            None => spec_parse_line(line@) is None,
        },
{
    let n: usize = line.unicode_len();
    let mut p: usize = 0;
    while p < n && line.get_char(p) != '\''
        invariant
            p <= n,
            n == line@.len(),
            forall|k: int| 0 <= k < p ==> line@[k] != '\'',
        decreases n - p,
    {
        p = p + 1;
    }
    proof {
        lemma_first_index_at(line@, '\'', p as int);
    }
    if p == 0 || p == n {
        return None;
    }
    let keypart = line.substring_char(0, p);
    let name = trim_str(keypart);
    let rawpart = line.substring_char(p, n);
    let raw = trim_str(rawpart);
    let rn: usize = raw.unicode_len();
    if rn >= 2 && raw.get_char(0) == '\'' && raw.get_char(rn - 1) == '\'' {
        let inner = raw.substring_char(1, rn - 1);
        let e = Entry::new(name, inner);
        proof {
            assert(spec_parse_line(line@) == Some(e@));
        }
        Some(e)
    } else {
        None
    }
}

/// Decode a whole file's text into its entries, or `None` where the text is
/// empty or any line is malformed.
pub fn parse_pairs(text: &str) -> (res: Option<Vec<Entry>>)
    ensures
        match res {
            Some(v) => spec_decode(text@) == Some(entries_view(v@)),
            None => spec_decode(text@) is None,
        },
{
    let n: usize = text.unicode_len();
    if n == 0 {
        return None;
    }
    let mut entries: Vec<Entry> = Vec::new();
    let mut pos: usize = 0;
    proof {
        assert(text@.subrange(0, n as int) =~= text@);
        assert(entries_view(entries@) + spec_decode_rec(text@)->Some_0 =~= spec_decode_rec(
            text@,
        )->Some_0);
    }
    while pos < n
        invariant
            pos <= n,
            n == text@.len(),
            n > 0,
            ({
                let tail = spec_decode_rec(text@.subrange(pos as int, n as int));
                match tail {
                    Some(ps) => spec_decode_rec(text@) == Some(entries_view(entries@) + ps),
                    None => spec_decode_rec(text@) is None,
                }
            }),
        decreases n - pos,
    {
        let ghost suffix = text@.subrange(pos as int, n as int);
        let mut j: usize = pos;
        while j < n && text.get_char(j) != '\n'
            invariant
                pos <= j <= n,
                n == text@.len(),
                forall|k: int| pos <= k < j ==> text@[k] != '\n',
            decreases n - j,
        {
            j = j + 1;
        }
        proof {
            assert forall|k: int| 0 <= k < j - pos implies suffix[k] != '\n' by {
                assert(suffix[k] == text@[pos + k]);
            }
            lemma_first_index_at(suffix, '\n', j - pos);
        }
        let line = text.substring_char(pos, j);
        proof {
            assert(line@ =~= suffix.subrange(0, j - pos));
        }
        let parsed = parse_line(line);
        match parsed {
            None => {
                proof {
                    assert(spec_decode_rec(suffix) is None);
                }
                return None;
            },
            Some(e) => {
                let ghost evs = entries_view(entries@);
                let ghost rest = if j == n {
                    Seq::<char>::empty()
                } else {
                    suffix.subrange(j - pos + 1, suffix.len() as int)
                };
                entries.push(e);
                let newpos: usize = if j == n {
                    n
                } else {
                    j + 1
                };
                proof {
                    assert(text@.subrange(newpos as int, n as int) =~= rest);
                    assert(entries_view(entries@) =~= evs.push(e@));
                    assert(spec_decode_rec(suffix) == match spec_decode_rec(rest) {
                        None => None::<Seq<(Seq<char>, Seq<char>)>>,
                        Some(ps) => Some(seq![e@] + ps),
                    });
                    if spec_decode_rec(rest) is Some {
                        let ps = spec_decode_rec(rest)->Some_0;
                        assert(evs.push(e@) + ps =~= evs + (seq![e@] + ps));
                    }
                }
                pos = newpos;
            },
        }
    }
    proof {
        assert(text@.subrange(pos as int, n as int) =~= Seq::<char>::empty());
        assert(entries_view(entries@) + Seq::<(Seq<char>, Seq<char>)>::empty() =~= entries_view(
            entries@,
        ));
    }
    Some(entries)
}

/// Encode entries back to file text, one line per entry, in order.
pub fn encode_snippets(entries: &Vec<Entry>) -> (out: String)
    ensures
        out@ == spec_encode(entries_view(entries@)),
{
    let ghost full = entries_view(entries@);
    let mut out = String::new();
    let mut i: usize = 0;
    proof {
        assert(full.skip(0) =~= full);
        assert(out@ + spec_encode(full) =~= spec_encode(full));
    }
    while i < entries.len()
        invariant
            i <= entries.len(),
            full == entries_view(entries@),
            spec_encode(full) == out@ + spec_encode(full.skip(i as int)),
        decreases entries.len() - i,
    {
        let ghost out0 = out@;
        let e = &entries[i];
        out.append(e.name.as_str());
        out.append(" '");
        out.append(e.value.as_str());
        out.append("'\n");
        proof {
            reveal_strlit(" '");
            reveal_strlit("'\n");
            assert(" '"@ =~= seq![' ', '\'']);
            assert("'\n"@ =~= seq!['\'', '\n']);
            let tail = full.skip(i as int);
            assert(tail[0] == full[i as int]);
            assert(tail.drop_first() =~= full.skip(i as int + 1));
            assert(out@ =~= out0 + encode_line(full[i as int].0, full[i as int].1));
            assert(out0 + (encode_line(full[i as int].0, full[i as int].1) + spec_encode(
                full.skip(i as int + 1),
            )) =~= out@ + spec_encode(full.skip(i as int + 1)));
        }
        i = i + 1;
    }
    proof {
        assert(full.skip(entries.len() as int) =~= Seq::<(Seq<char>, Seq<char>)>::empty());
        assert(out@ + Seq::<char>::empty() =~= out@);
    }
    out
}

/// The entries that survive an encode/decode round trip: the name carries no
/// delimiter, no newline and no surrounding whitespace, and the value carries
/// no delimiter and no newline.
pub open spec fn round_trip_entry(p: (Seq<char>, Seq<char>)) -> bool {
    &&& !p.0.contains('\'')
    &&& !p.0.contains('\n')
    &&& (p.0.len() == 0 || (!is_space(p.0.first()) && !is_space(p.0.last())))
    &&& !p.1.contains('\'')
    &&& !p.1.contains('\n')
}

proof fn lemma_parse_encoded_line(p: (Seq<char>, Seq<char>))
    requires
        round_trip_entry(p),
    ensures
        spec_parse_line(p.0 + seq![' ', '\''] + p.1 + seq!['\'']) == Some(p),
{
    let n0 = p.0.len() as int;
    let n1 = p.1.len() as int;
    let lb = p.0 + seq![' ', '\''] + p.1 + seq!['\''];
    assert(lb.len() == n0 + n1 + 3);
    assert forall|j: int| 0 <= j < n0 + 1 implies lb[j] != '\'' by {
        if j < n0 {
            assert(lb[j] == p.0[j]);
        } else {
            assert(lb[j] == ' ');
        }
    }
    assert(lb[n0 + 1] == '\'');
    lemma_first_index_at(lb, '\'', n0 + 1);
    let key_raw = lb.subrange(0, n0 + 1);
    assert(key_raw =~= p.0 + seq![' ']);
    if n0 == 0 {
        lemma_trim_start_at(key_raw, 1);
        assert(key_raw.subrange(1, 1) =~= Seq::<char>::empty());
        assert(spec_trim(key_raw) =~= p.0);
    } else {
        lemma_trim_start_at(key_raw, 0);
        assert(key_raw.subrange(0, key_raw.len() as int) =~= key_raw);
        assert(key_raw[n0 - 1] == p.0.last());
        lemma_trim_end_at(key_raw, n0);
        assert(key_raw.subrange(0, n0) =~= p.0);
    }
    let val_raw = lb.subrange(n0 + 1, lb.len() as int);
    assert(val_raw =~= seq!['\''] + p.1 + seq!['\'']);
    assert(val_raw[0] == '\'');
    assert(val_raw[val_raw.len() - 1] == '\'');
    lemma_trim_start_at(val_raw, 0);
    assert(val_raw.subrange(0, val_raw.len() as int) =~= val_raw);
    lemma_trim_end_at(val_raw, val_raw.len() as int);
    assert(spec_trim(val_raw) == val_raw);
    assert(val_raw.subrange(1, val_raw.len() - 1) =~= p.1);
    assert((spec_trim(key_raw), val_raw.subrange(1, val_raw.len() - 1)) =~= p);
}

/// Round trip: encoding entries whose parts are clean in the sense of
/// `round_trip_entry`, then decoding, yields the same entries in the same
/// order.  (An empty sequence encodes to empty text, which decodes to an
/// absent store rather than an empty one, so at least one entry is asked.)
pub proof fn lemma_round_trip(es: Seq<(Seq<char>, Seq<char>)>)
    requires
        es.len() > 0,
        forall|i: int| 0 <= i < es.len() ==> round_trip_entry(#[trigger] es[i]),
    ensures
        spec_decode(spec_encode(es)) == Some(es),
    decreases es.len(),
{
    let t = spec_encode(es);
    let p0 = es[0];
    let lb = p0.0 + seq![' ', '\''] + p0.1 + seq!['\''];
    let el = encode_line(p0.0, p0.1);
    assert(el =~= lb + seq!['\n']);
    let rest_es = es.drop_first();
    let rest_t = spec_encode(rest_es);
    assert(t == el + rest_t);
    let n0 = p0.0.len() as int;
    let n1 = p0.1.len() as int;
    assert(lb.len() == n0 + n1 + 3);
    assert forall|k: int| 0 <= k < lb.len() implies t[k] != '\n' by {
        assert(t[k] == lb[k]);
        if k < n0 {
            assert(lb[k] == p0.0[k]);
        } else if k == n0 {
            assert(lb[k] == ' ');
        } else if k == n0 + 1 {
            assert(lb[k] == '\'');
        } else if k < n0 + 2 + n1 {
            assert(lb[k] == p0.1[k - n0 - 2]);
        } else {
            assert(lb[k] == '\'');
        }
    }
    assert(t[lb.len() as int] == '\n');
    lemma_first_index_at(t, '\n', lb.len() as int);
    assert(t.subrange(0, lb.len() as int) =~= lb);
    lemma_parse_encoded_line(p0);
    assert(t.subrange(lb.len() as int + 1, t.len() as int) =~= rest_t);
    if rest_es.len() == 0 {
        assert(rest_t == Seq::<char>::empty());
        assert(seq![p0] + spec_decode_rec(rest_t)->Some_0 =~= es);
    } else {
        assert forall|i: int| 0 <= i < rest_es.len() implies round_trip_entry(
            #[trigger] rest_es[i],
        ) by {
            assert(rest_es[i] == es[i + 1]);
        }
        lemma_round_trip(rest_es);
        assert(rest_t.len() > 0);
        assert(spec_decode_rec(rest_t) == Some(rest_es));
        assert(seq![p0] + rest_es =~= es);
    }
}

/// The lines of a text, split at each newline character.
pub open spec fn text_lines(t: Seq<char>) -> Seq<Seq<char>>
    decreases t.len(),
{
    if t.len() == 0 {
        Seq::empty()
    } else {
        let i = first_index(t, '\n');
        if i == t.len() {
            seq![t]
        } else {
            seq![t.subrange(0, i)] + text_lines(t.subrange(i + 1, t.len() as int))
        }
    }
}

/// One malformed line anywhere in the text fails the whole decode: there are
/// no partial results.
pub proof fn lemma_bad_line_fails_decode(t: Seq<char>, k: int)
    requires
        0 <= k < text_lines(t).len(),
        spec_parse_line(text_lines(t)[k]) is None,
    ensures
        spec_decode(t) is None,
    decreases t.len(),
{
    let i = first_index(t, '\n');
    if i == t.len() {
        assert(t.subrange(0, i) =~= t);
        assert(text_lines(t)[0] == t);
    } else {
        let rest = t.subrange(i + 1, t.len() as int);
        assert(text_lines(t)[0] == t.subrange(0, i));
        if k > 0 {
            assert(text_lines(t)[k] == text_lines(rest)[k - 1]);
            if !(spec_parse_line(t.subrange(0, i)) is None) {
                lemma_bad_line_fails_decode(rest, k - 1);
            }
        }
    }
}

/// The three failure shapes of a single line, as the decoder sees them: no
/// delimiter anywhere, the delimiter in first position, or a trimmed value
/// part too short to carry its closing delimiter or not ending with one.
pub proof fn lemma_line_failure_shapes(l: Seq<char>)
    ensures
        !l.contains('\'') ==> spec_parse_line(l) is None,
        l.len() > 0 && l[0] == '\'' ==> spec_parse_line(l) is None,
        ({
            let p = first_index(l, '\'');
            let raw = spec_trim(l.subrange(p, l.len() as int));
            (0 < p < l.len() && (raw.len() < 2 || raw[raw.len() - 1] != '\''))
                ==> spec_parse_line(l) is None
        }),
{
    if !l.contains('\'') {
        if first_index(l, '\'') < l.len() {
            assert(l[first_index(l, '\'')] == '\'');
            assert(l.contains('\''));
        }
    }
}

/// Decode failure: a line with no delimiter, a line whose delimiter comes
/// first, or a line whose trimmed value part does not end with a delimiter
/// (or is too short to carry one) fails the decode of the whole text.
pub proof fn lemma_decode_fails_on_bad_line(t: Seq<char>, k: int)
    requires
        0 <= k < text_lines(t).len(),
        ({
            let l = text_lines(t)[k];
            let p = first_index(l, '\'');
            let raw = spec_trim(l.subrange(p, l.len() as int));
            ||| !l.contains('\'')
            ||| (l.len() > 0 && l[0] == '\'')
            ||| (0 < p < l.len() && (raw.len() < 2 || raw[raw.len() - 1] != '\''))
        }),
    ensures
        spec_decode(t) is None,
{
    lemma_line_failure_shapes(text_lines(t)[k]);
    lemma_bad_line_fails_decode(t, k);
}

} // verus!
