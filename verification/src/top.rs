//! Per-process compressed memory from `top -l 1 -stats pid,compress`.
use vstd::prelude::*;
use std::collections::HashMap;
use crate::cli::signed_decimal;
use crate::decimal::{all_digits, decimal_chars, digits_value, is_ascii_digit, lemma_decimal_chars};
use crate::size::{parse_size, sign_len, size_of_text};
use crate::text::{copy_range, first_words, lines, split_lines, string_from_chars, to_chars, words};

verus! {

/// What `i32::from_str` gives for `s`: an optional sign and one or more
/// ASCII digits whose value fits in `i32`.
pub open spec fn i32_text(s: Seq<char>) -> Option<i32> {
    let body = s.skip(sign_len(s) as int);
    let magnitude = digits_value(body) as int;
    let v = if s.len() > 0 && s[0] == '-' {
        -magnitude
    } else {
        magnitude
    };
    if body.len() > 0 && all_digits(body) && i32::MIN <= v <= i32::MAX {
        Some(v as i32)
    } else {
        None
    }
}

/// The pid and compressed size a line of `top` gives: its first word read
/// as a pid and its second word read as a size, when it has two words and
/// the first is a number.
pub open spec fn top_entry(line: Seq<char>) -> Option<(i32, u64)> {
    let w = words(line);
    if w.len() >= 2 {
        match i32_text(w[0]) {
            Some(pid) => Some((pid, size_of_text(w[1]))),
            None => None,
        }
    } else {
        None
    }
}

/// The compressed size of each pid in the given lines; a later line for
/// the same pid replaces an earlier one.
pub open spec fn top_map(ls: Seq<Seq<char>>) -> Map<i32, u64>
    decreases ls.len(),
{
    if ls.len() == 0 {
        Map::empty()
    } else {
        let m = top_map(ls.drop_last());
        match top_entry(ls.last()) {
            Some((pid, size)) => m.insert(pid, size),
            None => m,
        }
    }
}

/// Every `i32` written in decimal (as the report writes pids) reads back
/// as itself: the whole range of `i32` is accepted, with or without a `+`
/// before a nonnegative one.
pub proof fn law_i32_text_reads_decimal(v: i32)
    ensures
        i32_text(signed_decimal(v as int)) == Some(v),
        v >= 0 ==> i32_text(decimal_chars(v as nat)) == Some(v),
        v >= 0 ==> i32_text(seq!['+'] + decimal_chars(v as nat)) == Some(v),
{
    let m: nat = if v < 0 {
        (-(v as int)) as nat
    } else {
        v as nat
    };
    let dc = decimal_chars(m);
    lemma_decimal_chars(m);
    assert(is_ascii_digit(dc[0]));
    if v < 0 {
        let s = seq!['-'] + dc;
        assert(signed_decimal(v as int) == s);
        assert(s[0] == '-');
        assert(sign_len(s) == 1);
        assert(s.skip(1) =~= dc);
    } else {
        assert(signed_decimal(v as int) == dc);
        assert(sign_len(dc) == 0);
        assert(dc.skip(0) =~= dc);
        let s = seq!['+'] + dc;
        assert(s[0] == '+');
        assert(sign_len(s) == 1);
        assert(s.skip(1) =~= dc);
    }
}

/// A decimal number past `i32::MAX` is no pid.
pub proof fn law_i32_text_rejects_large(n: nat)
    requires
        n > i32::MAX,
    ensures
        i32_text(decimal_chars(n)) is None,
{
    let dc = decimal_chars(n);
    lemma_decimal_chars(n);
    assert(is_ascii_digit(dc[0]));
    assert(sign_len(dc) == 0);
    assert(dc.skip(0) =~= dc);
}

/// A line whose first two words are a pid written in decimal and a size
/// gives that pid with the size the word denotes, for every `i32` pid.
pub proof fn law_top_line_gives_pid_and_size(line: Seq<char>, pid: i32)
    requires
        words(line).len() >= 2,
        words(line)[0] == signed_decimal(pid as int),
    ensures
        top_entry(line) == Some((pid, size_of_text(words(line)[1]))),
        top_map(seq![line])[pid] == size_of_text(words(line)[1]),
        top_map(seq![line]).dom().contains(pid),
{
    law_i32_text_reads_decimal(pid);
    let ls = seq![line];
    assert(ls.drop_last() =~= Seq::<Seq<char>>::empty());
    assert(ls.last() == line);
}

/// Reads a word as an `i32` (see [`i32_text`]).
pub fn parse_i32(s: &Vec<char>) -> (r: Option<i32>)
    ensures
        r == i32_text(s@),
{
    let n = s.len();
    let negative = n > 0 && s[0] == '-';
    let start: usize = if n > 0 && (s[0] == '+' || s[0] == '-') {
        1
    } else {
        0
    };
    if start == n {
        proof {
            assert(s@.skip(sign_len(s@) as int).len() == 0);
        }
        return None;
    }
    let body = copy_range(s, start, n);
    assert(body@ =~= s@.skip(sign_len(s@) as int));
    let limit: u64 = if negative {
        2147483648
    } else {
        2147483647
    };
    let mut v: u64 = 0;
    let mut i: usize = 0;
    assert(body@.take(0) =~= Seq::<char>::empty());
    while i < body.len()
        invariant
            i <= body.len(),
            body@ == s@.skip(sign_len(s@) as int),
            negative == (s@.len() > 0 && s@[0] == '-'),
            limit == (if negative {
                2147483648u64
            } else {
                2147483647u64
            }),
            all_digits(body@.take(i as int)),
            v == digits_value(body@.take(i as int)),
            v <= limit,
        decreases body.len() - i,
    {
        let c = body[i];
        if c < '0' || c > '9' {
            proof {
                assert(!is_ascii_digit(body@[i as int]));
            }
            return None;
        }
        assert(body@.take(i + 1).drop_last() =~= body@.take(i as int));
        assert(body@.take(i + 1).last() == c);
        let d = (c as u32 - '0' as u32) as u64;
        let w = v * 10 + d;
        if w > limit {
            proof {
                lemma_digits_value_prefix_grows(body@, i as int + 1);
            }
            return None;
        }
        v = w;
        i += 1;
        assert(all_digits(body@.take(i as int))) by {
            assert forall|k: int| 0 <= k < i implies is_ascii_digit(#[trigger] body@.take(i as int)[k]) by {
                if k < i - 1 {
                    assert(body@.take(i as int)[k] == body@.take(i - 1)[k]);
                }
            }
        }
    }
    assert(body@.take(body.len() as int) =~= body@);
    if negative {
        Some(-(v as i64) as i32)
    } else {
        Some(v as i32)
    }
}

/// A digit string's value is at least the value of any of its prefixes.
proof fn lemma_digits_value_prefix_grows(s: Seq<char>, k: int)
    requires
        0 <= k <= s.len(),
    ensures
        digits_value(s) >= digits_value(s.take(k)),
    decreases s.len() - k,
{
    if k < s.len() {
        lemma_digits_value_prefix_grows(s, k + 1);
        assert(s.take(k + 1).drop_last() =~= s.take(k));
    } else {
        assert(s.take(k) =~= s);
    }
}

/// Reads the output of `top -l 1 -stats pid,compress` into a map from pid
/// to compressed size (see [`top_map`]).
pub fn parse_top_output(output: &str) -> (r: HashMap<i32, u64>)
    ensures
        r@ == top_map(lines(output@)),
{
    broadcast use vstd::std_specs::hash::group_hash_axioms;

    let text = to_chars(output);
    let ls = split_lines(&text);
    let ghost all = lines(output@);
    let mut map: HashMap<i32, u64> = HashMap::new();
    let mut k: usize = 0;
    assert(all.take(0) =~= Seq::<Seq<char>>::empty());
    while k < ls.len()
        invariant
            k <= ls.len() == all.len(),
            all == lines(text@),
            forall|i: int| 0 <= i < ls.len() ==> #[trigger] ls[i]@ == all[i],
            map@ == top_map(all.take(k as int)),
        decreases ls.len() - k,
    {
        assert(all.take(k + 1).drop_last() =~= all.take(k as int));
        assert(all.take(k + 1).last() == all[k as int]);
        let parts = first_words(&ls[k], 2);
        if parts.len() == 2 {
            match parse_i32(&parts[0]) {
                Some(pid) => {
                    let text = string_from_chars(&parts[1]);
                    let size = parse_size(text.as_str());
                    map.insert(pid, size);
                },
                None => {},
            }
        }
        k += 1;
    }
    assert(all.take(ls.len() as int) =~= all);
    map
}

} // verus!
