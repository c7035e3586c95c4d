use vstd::prelude::*;
use vstd::bytes::{
    lemma_auto_spec_u64_to_from_le_bytes, spec_u64_from_le_bytes, spec_u64_to_le_bytes,
    u64_from_le_bytes, u64_to_le_bytes,
};
use vstd::slice::slice_subrange;
use vstd::string::StrSliceExecFns;
use vstd::string::StringExecFns;
use vstd::utf8::{char_is_scalar, char_u32_cast, is_scalar};

use crate::task::{EnableStatus, Task, TaskView};
use crate::tasks::{store_wf, Tasks};

verus! {

// ---------------------------------------------------------------------------
// The persisted store format: a flat sequence of 64-bit words, each written
// as 8 little-endian bytes.
//   store:  [entry count] entry*
//   entry:  [id] string(title) string(description)
//           [enable flag: 1 or 0] [deadline] [pre period] [post period]
//   string: [character count] one word per character (the Unicode scalar)
// Instants and durations are i64 seconds carried as biased words (value
// minus i64::MIN), so the byte layout stays unsigned throughout.
// ---------------------------------------------------------------------------
/// Relies on core::char::from_u32: Some exactly on Unicode scalar values
/// (not a surrogate, at most 0x10FFFF), and the returned char casts back to
/// the argument.
pub assume_specification[ char::from_u32 ](u: u32) -> (r: Option<char>)
    ensures
        r is Some <==> is_scalar(u),
        r matches Some(c) ==> c as u32 == u,
;

/// Relies on alloc::string::String::push: appends the character to the end
/// of the string.
pub assume_specification[ String::push ](s: &mut String, c: char)
    ensures
        final(s)@ == old(s)@.push(c),
;

/// The entries of a store, each task replaced by its mathematical model.
pub open spec fn store_views(s: Seq<(usize, Task)>) -> Seq<(usize, TaskView)> {
    s.map_values(|p: (usize, Task)| (p.0, p.1@))
}

/// Well-formedness of modelled entries: unique ids, well-formed tasks.
pub open spec fn views_wf(v: Seq<(usize, TaskView)>) -> bool {
    &&& forall|i: int, j: int| 0 <= i < j < v.len() ==> (#[trigger] v[i]).0 != (#[trigger] v[j]).0
    &&& forall|i: int| 0 <= i < v.len() ==> (#[trigger] v[i]).1.wf()
}

/// What the format can carry: machine-representable lengths and fields.
/// Every store held in memory satisfies this.
pub open spec fn encodable(v: Seq<(usize, TaskView)>) -> bool {
    &&& v.len() <= usize::MAX
    &&& forall|i: int|
        0 <= i < v.len() ==> {
            &&& (#[trigger] v[i]).1.title.len() <= usize::MAX
            &&& v[i].1.description.len() <= usize::MAX
            &&& i64::MIN <= v[i].1.deadline <= i64::MAX
            &&& i64::MIN <= v[i].1.pre_period <= i64::MAX
            &&& i64::MIN <= v[i].1.post_period <= i64::MAX
        }
}

/// A store is well formed exactly when its modelled entries are.
pub proof fn lemma_store_views_wf(s: Seq<(usize, Task)>)
    ensures
        store_wf(s) <==> views_wf(store_views(s)),
{
    let v = store_views(s);
    assert forall|i: int| 0 <= i < s.len() implies #[trigger] v[i] == (s[i].0, s[i].1@) by {}
    if store_wf(s) {
        assert forall|i: int| 0 <= i < v.len() implies (#[trigger] v[i]).1.wf() by {
            assert(v[i] == (s[i].0, s[i].1@));
        }
        assert forall|i: int, j: int| 0 <= i < j < v.len() implies (#[trigger] v[i]).0 != (
        #[trigger] v[j]).0 by {
            assert(v[i] == (s[i].0, s[i].1@) && v[j] == (s[j].0, s[j].1@));
        }
    }
    if views_wf(v) {
        assert forall|i: int| 0 <= i < s.len() implies (#[trigger] s[i]).1@.wf() by {
            assert(v[i] == (s[i].0, s[i].1@));
        }
        assert forall|i: int, j: int| 0 <= i < j < s.len() implies (#[trigger] s[i]).0 != (
        #[trigger] s[j]).0 by {
            assert(v[i] == (s[i].0, s[i].1@) && v[j] == (s[j].0, s[j].1@));
        }
    }
}

// --- layer 1: words as little-endian bytes ---
/// The byte rendering of a word sequence: 8 little-endian bytes per word.
pub open spec fn bytes_of_words(w: Seq<u64>) -> Seq<u8>
    decreases w.len(),
{
    if w.len() == 0 {
        Seq::empty()
    } else {
        bytes_of_words(w.drop_last()) + spec_u64_to_le_bytes(w.last())
    }
}

/// The words carried by a byte sequence whose length is a multiple of 8.
pub open spec fn words_of_bytes(b: Seq<u8>) -> Seq<u64>
    decreases b.len(),
{
    if b.len() < 8 {
        Seq::empty()
    } else {
        words_of_bytes(b.subrange(0, b.len() - 8)).push(
            spec_u64_from_le_bytes(b.subrange(b.len() - 8, b.len() as int)),
        )
    }
}

/// The byte rendering is 8 bytes per word and reading it back yields the
/// words again.
pub proof fn lemma_words_bytes_round_trip(w: Seq<u64>)
    ensures
        bytes_of_words(w).len() == 8 * w.len(),
        words_of_bytes(bytes_of_words(w)) == w,
    decreases w.len(),
{
    lemma_auto_spec_u64_to_from_le_bytes();
    if w.len() > 0 {
        lemma_words_bytes_round_trip(w.drop_last());
        let b = bytes_of_words(w);
        assert(b.subrange(0, b.len() - 8) =~= bytes_of_words(w.drop_last()));
        assert(b.subrange(b.len() - 8, b.len() as int) =~= spec_u64_to_le_bytes(w.last()));
        assert(words_of_bytes(bytes_of_words(w)) =~= w);
    }
}

// --- layer 2: store entries as words ---
/// An i64 value carried as an unsigned word, biased by -i64::MIN.
pub open spec fn word_of_instant(x: int) -> u64 {
    (x - i64::MIN) as u64
}

/// The i64 value carried by a biased word.
pub open spec fn instant_of_word(x: u64) -> int {
    x + i64::MIN
}

/// Whether a word carries a character: a Unicode scalar value.
pub open spec fn valid_char_word(x: u64) -> bool {
    x <= u32::MAX && is_scalar(x as u32)
}

/// The character carried by a valid character word.
pub open spec fn char_of_word(x: u64) -> char {
    (x as u32) as char
}

/// The word carrying a character: its Unicode scalar value.
pub open spec fn word_of_char(c: char) -> u64 {
    (c as u32) as u64
}

/// The word rendering of a string: its length, then one word per character.
pub open spec fn words_of_string(t: Seq<char>) -> Seq<u64> {
    seq![t.len() as u64] + t.map_values(|c: char| word_of_char(c))
}

/// The word rendering of one task's fields.
pub open spec fn words_of_task(t: TaskView) -> Seq<u64> {
    words_of_string(t.title) + words_of_string(t.description) + seq![
        if t.enabled == EnableStatus::Enabled {
            1u64
        } else {
            0u64
        },
        word_of_instant(t.deadline),
        word_of_instant(t.pre_period),
        word_of_instant(t.post_period),
    ]
}

/// The word rendering of a run of entries: id, then the task, for each.
pub open spec fn words_of_entries(v: Seq<(usize, TaskView)>) -> Seq<u64>
    decreases v.len(),
{
    if v.len() == 0 {
        Seq::empty()
    } else {
        seq![v.first().0 as u64] + words_of_task(v.first().1) + words_of_entries(v.drop_first())
    }
}

/// The full encoding of a store: the entry count, the entries, as bytes.
pub open spec fn spec_encode(v: Seq<(usize, TaskView)>) -> Seq<u8> {
    bytes_of_words(seq![v.len() as u64] + words_of_entries(v))
}

/// Reads `n` characters starting at word `pos`; the position after them.
pub open spec fn dec_chars(w: Seq<u64>, pos: int, n: int) -> Option<(Seq<char>, int)>
    decreases n when n >= 0
{
    if n <= 0 {
        Some((Seq::empty(), pos))
    } else if 0 <= pos < w.len() && valid_char_word(w[pos]) {
        match dec_chars(w, pos + 1, n - 1) {
            Some((s, p)) => Some((seq![char_of_word(w[pos])] + s, p)),
            None => None,
        }
    } else {
        None
    }
}

/// Reads a string (length word, then characters) starting at word `pos`.
pub open spec fn dec_string(w: Seq<u64>, pos: int) -> Option<(Seq<char>, int)> {
    if 0 <= pos < w.len() && w[pos] <= usize::MAX as u64 {
        dec_chars(w, pos + 1, w[pos] as int)
    } else {
        None
    }
}

/// Reads one task's fields starting at word `pos`.
pub open spec fn dec_task(w: Seq<u64>, pos: int) -> Option<(TaskView, int)> {
    match dec_string(w, pos) {
        None => None,
        Some((title, p1)) => match dec_string(w, p1) {
            None => None,
            Some((description, p2)) => {
                if p2 + 4 <= w.len() && (w[p2] == 1 || w[p2] == 0) {
                    Some(
                        (
                            TaskView {
                                title,
                                description,
                                enabled: if w[p2] == 1 {
                                    EnableStatus::Enabled
                                } else {
                                    EnableStatus::Disabled
                                },
                                deadline: instant_of_word(w[p2 + 1]),
                                pre_period: instant_of_word(w[p2 + 2]),
                                post_period: instant_of_word(w[p2 + 3]),
                            },
                            p2 + 4,
                        ),
                    )
                } else {
                    None
                }
            },
        },
    }
}

/// Reads `n` entries starting at word `pos`.
pub open spec fn dec_entries(w: Seq<u64>, pos: int, n: int) -> Option<
    (Seq<(usize, TaskView)>, int),
>
    decreases n when n >= 0
{
    if n <= 0 {
        Some((Seq::empty(), pos))
    } else if 0 <= pos < w.len() && w[pos] <= usize::MAX as u64 {
        match dec_task(w, pos + 1) {
            None => None,
            Some((t, p)) => match dec_entries(w, p, n - 1) {
                Some((v, p2)) => Some((seq![(w[pos] as usize, t)] + v, p2)),
                None => None,
            },
        }
    } else {
        None
    }
}

/// The store carried by a byte sequence: the count, then exactly that many
/// entries, with nothing left over. None for bytes no encoding produces.
pub open spec fn spec_decode(b: Seq<u8>) -> Option<Seq<(usize, TaskView)>> {
    if b.len() % 8 == 0 {
        let w = words_of_bytes(b);
        if w.len() >= 1 && w[0] <= usize::MAX as u64 {
            match dec_entries(w, 1, w[0] as int) {
                Some((v, p)) => if p == w.len() {
                    Some(v)
                } else {
                    None
                },
                None => None,
            }
        } else {
            None
        }
    } else {
        None
    }
}

/// A biased word reads back as the value it was written from.
proof fn lemma_instant_round_trip(x: int)
    requires
        i64::MIN <= x <= i64::MAX,
    ensures
        instant_of_word(word_of_instant(x)) == x,
{
    assert(0 <= x - i64::MIN <= u64::MAX);
}

/// A character's word is valid and reads back as the character.
proof fn lemma_char_word_round_trip(c: char)
    ensures
        valid_char_word(word_of_char(c)),
        char_of_word(word_of_char(c)) == c,
{
    broadcast use char_is_scalar, char_u32_cast;

    let u: u32 = c as u32;
    assert(is_scalar(u));
    let x: u64 = u as u64;
    assert(x as u32 == u);
    assert((u as char) == c);
}

/// Characters written at `pos` read back as themselves.
proof fn lemma_dec_chars_at(w: Seq<u64>, pos: int, t: Seq<char>)
    requires
        0 <= pos,
        pos + t.len() <= w.len(),
        forall|j: int| 0 <= j < t.len() ==> w[pos + j] == word_of_char(#[trigger] t[j]),
    ensures
        dec_chars(w, pos, t.len() as int) == Some((t, pos + t.len())),
    decreases t.len(),
{
    if t.len() == 0 {
        assert(t =~= Seq::<char>::empty());
    } else {
        let c = t[0];
        assert(w[pos + 0] == word_of_char(c));
        assert(w[pos] == word_of_char(c));
        lemma_char_word_round_trip(c);
        let rest = t.drop_first();
        assert forall|j: int| 0 <= j < rest.len() implies w[pos + 1 + j] == word_of_char(
            #[trigger] rest[j],
        ) by {
            assert(rest[j] == t[j + 1]);
            assert(w[pos + (j + 1)] == word_of_char(t[j + 1]));
        }
        lemma_dec_chars_at(w, pos + 1, rest);
        assert(seq![char_of_word(w[pos])] + rest =~= t);
    }
}

/// A string written at `pos` reads back as itself.
proof fn lemma_dec_string_at(w: Seq<u64>, pos: int, t: Seq<char>)
    requires
        0 <= pos,
        t.len() <= usize::MAX,
        pos + 1 + t.len() <= w.len(),
        w.subrange(pos, pos + 1 + t.len()) == words_of_string(t),
    ensures
        dec_string(w, pos) == Some((t, pos + 1 + t.len())),
{
    let ws = words_of_string(t);
    let hd = seq![t.len() as u64];
    let tl = t.map_values(|c: char| word_of_char(c));
    assert(ws == hd + tl);
    assert(w[pos] == t.len() as u64) by {
        assert(w.subrange(pos, pos + 1 + t.len())[0] == w[pos + 0]);
        assert((hd + tl)[0] == hd[0]);
    }
    assert forall|j: int| 0 <= j < t.len() implies w[pos + 1 + j] == word_of_char(
        #[trigger] t[j],
    ) by {
        assert(w.subrange(pos, pos + 1 + t.len())[1 + j] == w[pos + (1 + j)]);
        assert((hd + tl)[1 + j] == tl[j]);
        assert(tl[j] == word_of_char(t[j]));
    }
    lemma_dec_chars_at(w, pos + 1, t);
}

/// A task written at `pos` reads back as itself.
proof fn lemma_dec_task_at(w: Seq<u64>, pos: int, t: TaskView)
    requires
        0 <= pos,
        t.title.len() <= usize::MAX,
        t.description.len() <= usize::MAX,
        i64::MIN <= t.deadline <= i64::MAX,
        i64::MIN <= t.pre_period <= i64::MAX,
        i64::MIN <= t.post_period <= i64::MAX,
        pos + words_of_task(t).len() <= w.len(),
        w.subrange(pos, pos + words_of_task(t).len() as int) == words_of_task(t),
    ensures
        dec_task(w, pos) == Some((t, pos + words_of_task(t).len())),
{
    let wt = words_of_task(t);
    let a = words_of_string(t.title);
    let b = words_of_string(t.description);
    let s3 = seq![
        if t.enabled == EnableStatus::Enabled {
            1u64
        } else {
            0u64
        },
        word_of_instant(t.deadline),
        word_of_instant(t.pre_period),
        word_of_instant(t.post_period),
    ];
    assert(wt == a + b + s3);
    let l1 = a.len() as int;
    let l2 = b.len() as int;
    let total = wt.len() as int;
    assert(total == l1 + l2 + 4);
    assert forall|k: int| 0 <= k < total implies w[pos + k] == wt[k] by {
        assert(w.subrange(pos, pos + total)[k] == w[pos + k]);
    }
    assert(w.subrange(pos, pos + l1) =~= a) by {
        assert forall|k: int| 0 <= k < l1 implies w.subrange(pos, pos + l1)[k] == a[k] by {
            assert(w.subrange(pos, pos + l1)[k] == w[pos + k]);
            assert(((a + b) + s3)[k] == (a + b)[k]);
            assert((a + b)[k] == a[k]);
        }
    }
    lemma_dec_string_at(w, pos, t.title);
    assert(w.subrange(pos + l1, pos + l1 + l2) =~= b) by {
        assert forall|k: int| 0 <= k < l2 implies w.subrange(pos + l1, pos + l1 + l2)[k]
            == b[k] by {
            assert(w.subrange(pos + l1, pos + l1 + l2)[k] == w[(pos + l1) + k]);
            assert(w[pos + (l1 + k)] == wt[l1 + k]);
            assert(((a + b) + s3)[l1 + k] == (a + b)[l1 + k]);
            assert((a + b)[l1 + k] == b[k]);
        }
    }
    lemma_dec_string_at(w, pos + l1, t.description);
    let p2 = pos + l1 + l2;
    assert forall|k: int| 0 <= k < 4 implies w[p2 + k] == s3[k] by {
        assert(w[pos + (l1 + l2 + k)] == wt[l1 + l2 + k]);
        assert(((a + b) + s3)[l1 + l2 + k] == s3[k]);
    }
    assert(w[p2 + 0] == s3[0]);
    assert(w[p2 + 1] == s3[1]);
    assert(w[p2 + 2] == s3[2]);
    assert(w[p2 + 3] == s3[3]);
    lemma_instant_round_trip(t.deadline);
    lemma_instant_round_trip(t.pre_period);
    lemma_instant_round_trip(t.post_period);
    assert(dec_string(w, pos) == Some((t.title, pos + l1)));
    assert(dec_string(w, pos + l1) == Some((t.description, p2)));
}

/// A run of entries written at `pos` reads back as itself.
proof fn lemma_dec_entries_at(w: Seq<u64>, pos: int, v: Seq<(usize, TaskView)>)
    requires
        0 <= pos,
        encodable(v),
        pos + words_of_entries(v).len() <= w.len(),
        w.subrange(pos, pos + words_of_entries(v).len() as int) == words_of_entries(v),
    ensures
        dec_entries(w, pos, v.len() as int) == Some((v, pos + words_of_entries(v).len())),
    decreases v.len(),
{
    let we = words_of_entries(v);
    let total = we.len() as int;
    assert forall|k: int| 0 <= k < total implies w[pos + k] == we[k] by {
        assert(w.subrange(pos, pos + total)[k] == w[pos + k]);
    }
    if v.len() == 0 {
        assert(v =~= Seq::<(usize, TaskView)>::empty());
    } else {
        let first = v.first();
        let t = first.1;
        let hd = seq![first.0 as u64];
        let wt = words_of_task(t);
        let rest = v.drop_first();
        let wr = words_of_entries(rest);
        assert(we == hd + wt + wr);
        let l1 = 1 + wt.len() as int;
        assert(w[pos + 0] == we[0]);
        assert(((hd + wt) + wr)[0] == (hd + wt)[0]);
        assert((hd + wt)[0] == hd[0]);
        assert(w[pos] == first.0 as u64);
        assert(w[pos] <= usize::MAX as u64);
        assert(w.subrange(pos + 1, pos + l1) =~= wt) by {
            assert forall|k: int| 0 <= k < wt.len() implies w.subrange(pos + 1, pos + l1)[k]
                == wt[k] by {
                assert(w.subrange(pos + 1, pos + l1)[k] == w[(pos + 1) + k]);
                assert(w[pos + (1 + k)] == we[1 + k]);
                assert(((hd + wt) + wr)[1 + k] == (hd + wt)[1 + k]);
                assert((hd + wt)[1 + k] == wt[k]);
            }
        }
        assert(first == v[0]);
        lemma_dec_task_at(w, pos + 1, t);
        let p = pos + l1;
        assert forall|i: int| 0 <= i < rest.len() implies rest[i] == v[i + 1] by {}
        assert(encodable(rest));
        assert(w.subrange(p, p + wr.len() as int) =~= wr) by {
            assert forall|k: int| 0 <= k < wr.len() implies w.subrange(p, p + wr.len() as int)[k]
                == wr[k] by {
                assert(w.subrange(p, p + wr.len() as int)[k] == w[p + k]);
                assert(w[pos + (l1 + k)] == we[l1 + k]);
                assert(((hd + wt) + wr)[l1 + k] == wr[k]);
            }
        }
        lemma_dec_entries_at(w, p, rest);
        assert((w[pos] as usize) == first.0);
        assert(seq![(w[pos] as usize, t)] + rest =~= v);
    }
}

/// Law: decoding an encoded store reproduces it exactly: the same ids in
/// the same order, each task with the same field values.
pub proof fn lemma_codec_round_trip(v: Seq<(usize, TaskView)>)
    requires
        encodable(v),
    ensures
        spec_decode(spec_encode(v)) == Some(v),
{
    let hd = seq![v.len() as u64];
    let we = words_of_entries(v);
    let words = hd + we;
    let b = spec_encode(v);
    lemma_words_bytes_round_trip(words);
    assert(b.len() % 8 == 0);
    assert(words_of_bytes(b) == words);
    assert(words[0] == v.len() as u64) by {
        assert((hd + we)[0] == hd[0]);
    }
    assert(words.subrange(1, 1 + we.len() as int) =~= we) by {
        assert forall|k: int| 0 <= k < we.len() implies words.subrange(1, 1 + we.len() as int)[k]
            == we[k] by {
            assert(words.subrange(1, 1 + we.len() as int)[k] == words[1 + k]);
            assert((hd + we)[1 + k] == we[k]);
        }
    }
    lemma_dec_entries_at(words, 1, v);
}

/// The biased word of an i64 value.
fn instant_word(x: i64) -> (r: u64)
    ensures
        r == word_of_instant(x as int),
{
    (((x as i128) - (i64::MIN as i128)) as u64)
}

/// The i64 value of a biased word.
fn instant_from_word(x: u64) -> (r: i64)
    ensures
        r as int == instant_of_word(x),
{
    (((x as i128) + (i64::MIN as i128)) as i64)
}

/// Appends one string's words: the length, then each character's word.
fn enc_string_words(out: &mut Vec<u64>, s: &str)
    ensures
        final(out)@ == old(out)@ + words_of_string(s@),
        s@.len() <= usize::MAX,
{
    let n = s.unicode_len();
    out.push(n as u64);
    proof {
        assert(out@ =~= old(out)@ + seq![n as u64] + s@.take(0).map_values(
            |c: char| word_of_char(c),
        ));
    }
    let mut k: usize = 0;
    while k < n
        invariant
            k <= n,
            n == s@.len(),
            out@ == old(out)@ + seq![n as u64] + s@.take(k as int).map_values(
                |c: char| word_of_char(c),
            ),
        decreases n - k,
    {
        let c = s.get_char(k);
        out.push((c as u32) as u64);
        proof {
            assert(s@.take(k as int + 1).map_values(|c: char| word_of_char(c)) =~= s@.take(
                k as int,
            ).map_values(|c: char| word_of_char(c)).push(word_of_char(s@[k as int])));
            assert(out@ =~= old(out)@ + seq![n as u64] + s@.take(k as int + 1).map_values(
                |c: char| word_of_char(c),
            ));
        }
        k = k + 1;
    }
    proof {
        assert(s@.take(n as int) =~= s@);
        assert(old(out)@ + seq![n as u64] + s@.map_values(|c: char| word_of_char(c)) =~= old(out)@
            + words_of_string(s@));
    }
}

/// Appends one task's words.
fn enc_task_words(out: &mut Vec<u64>, t: &Task)
    ensures
        final(out)@ == old(out)@ + words_of_task(t@),
        t@.title.len() <= usize::MAX,
        t@.description.len() <= usize::MAX,
{
    enc_string_words(out, t.title.as_str());
    enc_string_words(out, t.description.as_str());
    let flag: u64 = match t.enabled {
        EnableStatus::Enabled => 1,
        EnableStatus::Disabled => 0,
    };
    out.push(flag);
    out.push(instant_word(t.deadline));
    out.push(instant_word(t.pre_period));
    out.push(instant_word(t.post_period));
    proof {
        assert(out@ =~= old(out)@ + words_of_task(t@));
    }
}

/// The words of the entries from position `idx` on, in store order.
fn enc_entries_words(items: &Vec<(usize, Task)>, idx: usize) -> (r: Vec<u64>)
    requires
        idx <= items@.len(),
    ensures
        r@ == words_of_entries(store_views(items@).subrange(idx as int, items@.len() as int)),
        forall|i: int|
            idx <= i < items@.len() ==> (#[trigger] items@[i]).1@.title.len() <= usize::MAX
                && items@[i].1@.description.len() <= usize::MAX,
    decreases items@.len() - idx,
{
    let n = items.len();
    if idx == n {
        proof {
            assert(store_views(items@).subrange(idx as int, n as int) =~= Seq::<
                (usize, TaskView),
            >::empty());
        }
        Vec::new()
    } else {
        let mut out: Vec<u64> = Vec::new();
        out.push(items[idx].0 as u64);
        enc_task_words(&mut out, &items[idx].1);
        let mut rest = enc_entries_words(items, idx + 1);
        out.append(&mut rest);
        proof {
            let v = store_views(items@).subrange(idx as int, n as int);
            assert(store_views(items@)[idx as int] == (items@[idx as int].0, items@[idx as int].1@));
            assert(v.first() == (items@[idx as int].0, items@[idx as int].1@));
            assert(v.drop_first() =~= store_views(items@).subrange(idx as int + 1, n as int));
            assert(out@ =~= seq![v.first().0 as u64] + words_of_task(v.first().1)
                + words_of_entries(v.drop_first()));
        }
        out
    }
}

/// The little-endian byte rendering of a word vector.
fn bytes_from_words(words: &Vec<u64>) -> (r: Vec<u8>)
    ensures
        r@ == bytes_of_words(words@),
{
    let n = words.len();
    let mut out: Vec<u8> = Vec::new();
    let mut i: usize = 0;
    proof {
        assert(words@.take(0) =~= Seq::<u64>::empty());
    }
    while i < n
        invariant
            i <= n,
            n == words@.len(),
            out@ == bytes_of_words(words@.take(i as int)),
        decreases n - i,
    {
        let mut b = u64_to_le_bytes(words[i]);
        out.append(&mut b);
        proof {
            assert(words@.take(i as int + 1).drop_last() =~= words@.take(i as int));
            assert(words@.take(i as int + 1).last() == words@[i as int]);
        }
        i = i + 1;
    }
    proof {
        assert(words@.take(n as int) =~= words@);
    }
    out
}

/// The words carried by a byte vector; None when the length is not a
/// multiple of 8.
fn words_from_bytes(bytes: &Vec<u8>) -> (r: Option<Vec<u64>>)
    ensures
        match r {
            Some(w) => bytes@.len() % 8 == 0 && w@ == words_of_bytes(bytes@),
            None => bytes@.len() % 8 != 0,
        },
{
    let n = bytes.len();
    if n % 8 != 0 {
        return None;
    }
    let mut out: Vec<u64> = Vec::new();
    let mut i: usize = 0;
    proof {
        assert(bytes@.take(0) =~= Seq::<u8>::empty());
    }
    while i < n
        invariant
            i <= n,
            i % 8 == 0,
            n % 8 == 0,
            n == bytes@.len(),
            out@ == words_of_bytes(bytes@.take(i as int)),
        decreases n - i,
    {
        let x = u64_from_le_bytes(slice_subrange(bytes.as_slice(), i, i + 8));
        out.push(x);
        proof {
            let t = bytes@.take(i as int + 8);
            assert(t.subrange(0, t.len() - 8) =~= bytes@.take(i as int));
            assert(t.subrange(t.len() - 8, t.len() as int) =~= bytes@.subrange(
                i as int,
                i as int + 8,
            ));
        }
        i = i + 8;
    }
    proof {
        assert(bytes@.take(n as int) =~= bytes@);
    }
    Some(out)
}

/// Reads `n` characters starting at word `pos`.
fn dec_chars_exec(w: &Vec<u64>, pos: usize, n: usize) -> (r: Option<(String, usize)>)
    requires
        pos <= w@.len(),
    ensures
        match r {
            Some((s, p)) => dec_chars(w@, pos as int, n as int) == Some((s@, p as int)) && pos <= p
                <= w@.len(),
            None => dec_chars(w@, pos as int, n as int) is None,
        },
    decreases n,
{
    if n == 0 {
        return Some((String::new(), pos));
    }
    if pos >= w.len() {
        return None;
    }
    let x = w[pos];
    if x > u32::MAX as u64 {
        return None;
    }
    let c = match char::from_u32(x as u32) {
        Some(c) => c,
        None => {
            return None;
        },
    };
    match dec_chars_exec(w, pos + 1, n - 1) {
        None => None,
        Some((s, p)) => {
            let mut out = String::new();
            out.push(c);
            out.append(s.as_str());
            proof {
                char_u32_cast(c, x as u32);
                assert(c == char_of_word(x));
                assert(out@ =~= seq![char_of_word(x)] + s@);
            }
            Some((out, p))
        },
    }
}

/// Reads a string starting at word `pos`.
fn dec_string_exec(w: &Vec<u64>, pos: usize) -> (r: Option<(String, usize)>)
    ensures
        match r {
            Some((s, p)) => dec_string(w@, pos as int) == Some((s@, p as int)) && pos < p
                <= w@.len(),
            None => dec_string(w@, pos as int) is None,
        },
{
    if pos >= w.len() {
        return None;
    }
    let len_w = w[pos];
    if len_w > usize::MAX as u64 {
        return None;
    }
    let n = len_w as usize;
    match dec_chars_exec(w, pos + 1, n) {
        None => None,
        Some((s, p)) => Some((s, p)),
    }
}

/// Reads one task starting at word `pos`.
fn dec_task_exec(w: &Vec<u64>, pos: usize) -> (r: Option<(Task, usize)>)
    ensures
        match r {
            Some((t, p)) => dec_task(w@, pos as int) == Some((t@, p as int)) && pos < p <= w@.len(),
            None => dec_task(w@, pos as int) is None,
        },
{
    let (title, p1) = match dec_string_exec(w, pos) {
        Some(x) => x,
        None => {
            return None;
        },
    };
    let (description, p2) = match dec_string_exec(w, p1) {
        Some(x) => x,
        None => {
            return None;
        },
    };
    if w.len() - p2 < 4 {
        return None;
    }
    let flag = w[p2];
    if flag != 1 && flag != 0 {
        return None;
    }
    let enabled = if flag == 1 {
        EnableStatus::Enabled
    } else {
        EnableStatus::Disabled
    };
    let t = Task {
        title,
        description,
        enabled,
        deadline: instant_from_word(w[p2 + 1]),
        pre_period: instant_from_word(w[p2 + 2]),
        post_period: instant_from_word(w[p2 + 3]),
    };
    Some((t, p2 + 4))
}

/// Reads `n` entries starting at word `pos`.
fn dec_entries_exec(w: &Vec<u64>, pos: usize, n: usize) -> (r: Option<(Vec<(usize, Task)>, usize)>)
    requires
        pos <= w@.len(),
    ensures
        match r {
            Some((items, p)) => dec_entries(w@, pos as int, n as int) == Some(
                (store_views(items@), p as int),
            ) && pos <= p <= w@.len(),
            None => dec_entries(w@, pos as int, n as int) is None,
        },
    decreases n,
{
    if n == 0 {
        let items: Vec<(usize, Task)> = Vec::new();
        proof {
            assert(store_views(items@) =~= Seq::<(usize, TaskView)>::empty());
        }
        return Some((items, pos));
    }
    if pos >= w.len() {
        return None;
    }
    let idw = w[pos];
    if idw > usize::MAX as u64 {
        return None;
    }
    let id = idw as usize;
    let (t, p) = match dec_task_exec(w, pos + 1) {
        Some(x) => x,
        None => {
            return None;
        },
    };
    match dec_entries_exec(w, p, n - 1) {
        None => None,
        Some((rest, p2)) => {
            let mut items: Vec<(usize, Task)> = Vec::new();
            items.push((id, t));
            let mut rest2 = rest;
            items.append(&mut rest2);
            proof {
                let ghost old_rest = store_views(items@.subrange(1, items@.len() as int));
                assert forall|k: int| 0 <= k < items@.len() implies #[trigger] store_views(
                    items@,
                )[k] == (items@[k].0, items@[k].1@) by {}
                assert(store_views(items@) =~= seq![(w@[pos as int] as usize, t@)] + store_views(
                    items@,
                ).subrange(1, items@.len() as int));
                assert(store_views(items@).subrange(1, items@.len() as int) =~= dec_entries(
                    w@,
                    p as int,
                    n as int - 1,
                )->Some_0.0);
            }
            Some((items, p2))
        },
    }
}

/// Law: a well-formed store survives the persistence round trip: decoding
/// its encoding yields exactly its entries, and they are well formed again.
pub proof fn lemma_store_round_trip(s: Seq<(usize, Task)>)
    requires
        store_wf(s),
        encodable(store_views(s)),
    ensures
        spec_decode(spec_encode(store_views(s))) == Some(store_views(s)),
        views_wf(store_views(s)),
{
    lemma_codec_round_trip(store_views(s));
    lemma_store_views_wf(s);
}

/// Serializes the store: the exact byte rendering of its model. Always
/// succeeds.
pub fn encode_store(tasks: &Tasks) -> (r: Vec<u8>)
    ensures
        r@ == spec_encode(store_views(tasks@)),
        encodable(store_views(tasks@)),
{
    let items = tasks.entries();
    let mut words: Vec<u64> = Vec::new();
    words.push(items.len() as u64);
    let mut rest = enc_entries_words(items, 0);
    words.append(&mut rest);
    proof {
        let v = store_views(items@);
        assert(v.subrange(0, items@.len() as int) =~= v);
        assert(words@ =~= seq![v.len() as u64] + words_of_entries(v));
        assert forall|i: int| 0 <= i < v.len() implies {
            &&& (#[trigger] v[i]).1.title.len() <= usize::MAX
            &&& v[i].1.description.len() <= usize::MAX
            &&& i64::MIN <= v[i].1.deadline <= i64::MAX
            &&& i64::MIN <= v[i].1.pre_period <= i64::MAX
            &&& i64::MIN <= v[i].1.post_period <= i64::MAX
        } by {
            assert(v[i] == (items@[i].0, items@[i].1@));
        }
    }
    bytes_from_words(&words)
}

/// Parses a store from bytes: Some exactly on the rendering of a
/// well-formed store (unique ids, well-formed tasks), which it reproduces.
pub fn decode_store(bytes: &Vec<u8>) -> (r: Option<Tasks>)
    ensures
        match r {
            Some(t) => {
                &&& spec_decode(bytes@) == Some(store_views(t@))
                &&& store_wf(t@)
            },
            None => spec_decode(bytes@) is None || !views_wf(spec_decode(bytes@)->Some_0),
        },
{
    let words = match words_from_bytes(bytes) {
        Some(x) => x,
        None => {
            return None;
        },
    };
    if words.len() == 0 {
        return None;
    }
    let cw = words[0];
    if cw > usize::MAX as u64 {
        return None;
    }
    let count = cw as usize;
    let (items, p) = match dec_entries_exec(&words, 1, count) {
        Some(x) => x,
        None => {
            return None;
        },
    };
    if p != words.len() {
        return None;
    }
    let ghost v = store_views(items@);
    proof {
        assert(spec_decode(bytes@) == Some(v));
        assert forall|k: int| 0 <= k < items@.len() implies #[trigger] v[k] == (
            items@[k].0,
            items@[k].1@,
        ) by {}
    }
    let n = items.len();
    let mut i: usize = 0;
    while i < n
        invariant
            i <= n,
            n == items@.len(),
            v == store_views(items@),
            spec_decode(bytes@) == Some(v),
            forall|k: int| 0 <= k < items@.len() ==> #[trigger] v[k] == (items@[k].0, items@[k].1@),
            forall|a: int| 0 <= a < i ==> (#[trigger] items@[a]).1@.wf(),
        decreases n - i,
    {
        let t = &items[i].1;
        let ok = t.pre_period >= 0 && t.post_period >= 0 && ((t.deadline as i128) - (t.pre_period
            as i128) >= i64::MIN as i128) && ((t.deadline as i128) + (t.post_period as i128)
            <= i64::MAX as i128);
        if !ok {
            proof {
                assert(!v[i as int].1.wf());
                assert(!views_wf(v));
            }
            return None;
        }
        i = i + 1;
    }
    let mut a: usize = 0;
    while a < n
        invariant
            a <= n,
            n == items@.len(),
            v == store_views(items@),
            spec_decode(bytes@) == Some(v),
            forall|k: int| 0 <= k < items@.len() ==> #[trigger] v[k] == (items@[k].0, items@[k].1@),
            forall|k: int| 0 <= k < items@.len() ==> (#[trigger] items@[k]).1@.wf(),
            forall|x: int, y: int|
                0 <= x < a && x < y < n ==> (#[trigger] items@[x]).0 != (#[trigger] items@[y]).0,
        decreases n - a,
    {
        let mut b: usize = a + 1;
        while b < n
            invariant
                a < b <= n || (a + 1 > n && b == a + 1),
                a < n,
                n == items@.len(),
                v == store_views(items@),
                spec_decode(bytes@) == Some(v),
                forall|k: int|
                    0 <= k < items@.len() ==> #[trigger] v[k] == (items@[k].0, items@[k].1@),
                forall|y: int| a < y < b ==> (#[trigger] items@[y]).0 != items@[a as int].0,
            decreases n - b,
        {
            if items[b].0 == items[a].0 {
                proof {
                    assert(v[a as int].0 == v[b as int].0);
                    assert(!views_wf(v));
                }
                return None;
            }
            b = b + 1;
        }
        a = a + 1;
    }
    let t = Tasks::from_entries(items);
    proof {
        assert(store_wf(t@));
    }
    Some(t)
}

} // verus!
