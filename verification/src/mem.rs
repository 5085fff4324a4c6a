//! Reading the memory report (`/proc/meminfo`).
use vstd::prelude::*;

use crate::text::{
    chars_of, has_prefix, lines, parse_u64, parse_u64_spec, split_lines, split_words, starts_with,
    views, words,
};

verus! {

/// The number that starts a `meminfo` field: the first whitespace-separated
/// word of `s` read as an unsigned number, or 0 where there is no word or the
/// first word is not such a number.
pub open spec fn kb_value(s: Seq<char>) -> u64 {
    let ws = words(s);
    if ws.len() > 0 {
        match parse_u64_spec(ws[0]) {
            Some(v) => v,
            None => 0,
        }
    } else {
        0
    }
}

/// A field's value is the number that its first word spells, whatever its
/// length, as long as it fits in `u64`; a first word that is not such a
/// number, or no word at all, reads as 0.
pub proof fn law_kb_value(s: Seq<char>)
    ensures
        words(s).len() > 0 ==> match parse_u64_spec(words(s)[0]) {
            Some(v) => kb_value(s) == v,
            None => kb_value(s) == 0,
        },
        words(s).len() == 0 ==> kb_value(s) == 0,
{
}

/// [`kb_value`] of the characters of `s` from position `from` on.
pub fn kb_value_from(s: &Vec<char>, from: usize) -> (r: u64)
    requires
        from <= s.len(),
    ensures
        r == kb_value(s@.skip(from as int)),
        words(s@.skip(from as int)).len() > 0 ==> match parse_u64_spec(
            words(s@.skip(from as int))[0],
        ) {
            Some(v) => r == v,
            None => r == 0,
        },
        words(s@.skip(from as int)).len() == 0 ==> r == 0,
{
    proof {
        law_kb_value(s@.skip(from as int));
    }
    let ws = split_words(s, from);
    if ws.len() > 0 {
        proof {
            assert(views(ws@)[0] == ws@[0]@);
        }
        match parse_u64(&ws[0]) {
            Some(v) => v,
            None => 0,
        }
    } else {
        0
    }
}

/// Reads the value of a `meminfo` field such as `"   16314072 kB"`: the
/// first word as an unsigned number, 0 where there is none.
pub fn parse_kb(s: &str) -> (r: u64)
    ensures
        r == kb_value(s@),
        words(s@).len() > 0 ==> match parse_u64_spec(words(s@)[0]) {
            Some(v) => r == v,
            None => r == 0,
        },
        words(s@).len() == 0 ==> r == 0,
{
    proof {
        law_kb_value(s@);
    }
    let cs = chars_of(s);
    proof {
        assert(cs@.skip(0) =~= cs@);
    }
    kb_value_from(&cs, 0)
}

/// Total and available memory, in the unit the report gives (kB).
#[derive(Clone, Copy, Debug, PartialEq, Eq)]
pub struct MemInfo {
    pub total: u64,
    pub available: u64,
}

/// The field name of the total memory.
pub open spec fn total_key() -> Seq<char> {
    "MemTotal:"@
}

/// The field name of the available memory.
pub open spec fn available_key() -> Seq<char> {
    "MemAvailable:"@
}

/// How one line changes what is known: a `MemTotal:` line sets the total, a
/// `MemAvailable:` line sets the available amount, any other line changes
/// nothing.
pub open spec fn mem_step(m: MemInfo, l: Seq<char>) -> MemInfo {
    if has_prefix(l, total_key()) {
        MemInfo { total: kb_value(l.skip(total_key().len() as int)), available: m.available }
    } else if has_prefix(l, available_key()) {
        MemInfo { total: m.total, available: kb_value(l.skip(available_key().len() as int)) }
    } else {
        m
    }
}

/// The result of reading the lines `ls` in order, starting from zeroes.
pub open spec fn mem_scan(ls: Seq<Seq<char>>) -> MemInfo
    decreases ls.len(),
{
    if ls.len() == 0 {
        MemInfo { total: 0, available: 0 }
    } else {
        mem_step(mem_scan(ls.drop_last()), ls.last())
    }
}

/// The value of the last of the lines `ls` that starts with `key`, or 0
/// where none does.
pub open spec fn last_field(ls: Seq<Seq<char>>, key: Seq<char>) -> u64
    decreases ls.len(),
{
    if ls.len() == 0 {
        0
    } else if has_prefix(ls.last(), key) {
        kb_value(ls.last().skip(key.len() as int))
    } else {
        last_field(ls.drop_last(), key)
    }
}

/// Reading a memory report yields the value of its last `MemTotal:` line
/// and the value of its last `MemAvailable:` line, each 0 where there is
/// no such line.
pub proof fn law_last_field_wins(ls: Seq<Seq<char>>)
    ensures
        mem_scan(ls).total == last_field(ls, total_key()),
        mem_scan(ls).available == last_field(ls, available_key()),
    decreases ls.len(),
{
    if ls.len() > 0 {
        law_last_field_wins(ls.drop_last());
        let l = ls.last();
        if has_prefix(l, total_key()) && has_prefix(l, available_key()) {
            reveal_strlit("MemTotal:");
            reveal_strlit("MemAvailable:");
            assert(l[3] == total_key()[3]);
            assert(l[3] == available_key()[3]);
        }
    }
}

/// Reads total and available memory from the text of a memory report; a
/// field that is missing, or whose value is not a number, reads as 0, and
/// the last line for a field wins.
pub fn parse_meminfo(content: &str) -> (r: MemInfo)
    ensures
        r == mem_scan(lines(content@)),
        r.total == last_field(lines(content@), total_key()),
        r.available == last_field(lines(content@), available_key()),
{
    let cs = chars_of(content);
    let ls = split_lines(&cs);
    let total_key_chars = chars_of("MemTotal:");
    let available_key_chars = chars_of("MemAvailable:");
    let ghost all = views(ls@);
    let mut m = MemInfo { total: 0, available: 0 };
    let mut i: usize = 0;
    proof {
        assert(all.take(0) =~= Seq::<Seq<char>>::empty());
    }
    while i < ls.len()
        invariant
            i <= ls.len(),
            all == views(ls@),
            all == lines(content@),
            total_key_chars@ == total_key(),
            available_key_chars@ == available_key(),
            m == mem_scan(all.take(i as int)),
        decreases ls.len() - i,
    {
        let line = &ls[i];
        proof {
            assert(all.take(i + 1).drop_last() =~= all.take(i as int));
            assert(all.take(i + 1).last() == line@);
        }
        if starts_with(line, &total_key_chars) {
            m = MemInfo { total: kb_value_from(line, total_key_chars.len()), available: m.available };
        } else if starts_with(line, &available_key_chars) {
            m = MemInfo { total: m.total, available: kb_value_from(line, available_key_chars.len()) };
        }
        i = i + 1;
    }
    proof {
        assert(all.take(ls.len() as int) =~= all);
        law_last_field_wins(all);
    }
    m
}

} // verus!
