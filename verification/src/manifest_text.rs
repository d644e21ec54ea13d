//! The manifest as text: one record per line, its fields parted by tabs.
//!
//! A line holds the name, a flag that says whether a version follows, the
//! three numbers of the version, the path and the time; the numbers are
//! written in decimal. What was written reads back as the same record.

use crate::artifact::Version;
use crate::manifest::{EntryView, ManifestEntry};
use crate::resolve::names_of;
use vstd::prelude::*;
use vstd::string::*;

verus! {

/// Whether `c` is a decimal digit.
pub open spec fn is_digit(c: char) -> bool {
    c == '0' || c == '1' || c == '2' || c == '3' || c == '4' || c == '5' || c == '6' || c == '7'
        || c == '8' || c == '9'
}

/// The digit for `d`.
pub open spec fn digit_of(d: int) -> char {
    if d == 0 {
        '0'
    } else if d == 1 {
        '1'
    } else if d == 2 {
        '2'
    } else if d == 3 {
        '3'
    } else if d == 4 {
        '4'
    } else if d == 5 {
        '5'
    } else if d == 6 {
        '6'
    } else if d == 7 {
        '7'
    } else if d == 8 {
        '8'
    } else {
        '9'
    }
}

/// What the digit `c` counts for; 0 where it is no digit.
pub open spec fn digit_value(c: char) -> nat {
    if c == '1' {
        1
    } else if c == '2' {
        2
    } else if c == '3' {
        3
    } else if c == '4' {
        4
    } else if c == '5' {
        5
    } else if c == '6' {
        6
    } else if c == '7' {
        7
    } else if c == '8' {
        8
    } else if c == '9' {
        9
    } else {
        0
    }
}

/// `n` in decimal, without leading zeros.
pub open spec fn decimal(n: nat) -> Seq<char>
    decreases n,
{
    if n < 10 {
        seq![digit_of(n as int)]
    } else {
        decimal(n / 10).push(digit_of((n % 10) as int))
    }
}

/// The number that the digits of `s` stand for.
pub open spec fn value(s: Seq<char>) -> nat
    decreases s.len(),
{
    if s.len() == 0 {
        0
    } else {
        value(s.drop_last()) * 10 + digit_value(s.last())
    }
}

/// `s` is one digit or more and nothing else.
pub open spec fn all_digits(s: Seq<char>) -> bool {
    s.len() > 0 && forall|i: int| 0 <= i < s.len() ==> is_digit(#[trigger] s[i])
}

/// The number that `s` stands for, where it is made of digits and the
/// number fits.
pub open spec fn number(s: Seq<char>) -> Option<u64> {
    if all_digits(s) && value(s) <= u64::MAX {
        Some(value(s) as u64)
    } else {
        None
    }
}

/// `s` holds no tab and no line break, so it can stand as a field.
pub open spec fn plain(s: Seq<char>) -> bool {
    forall|i: int| 0 <= i < s.len() ==> (#[trigger] s[i]) != '\t' && s[i] != '\n'
}

/// The first place from `from` on at which `s` holds a tab, or its length.
pub open spec fn field_end(s: Seq<char>, from: int) -> int
    decreases s.len() - from,
{
    if from < 0 || from >= s.len() {
        s.len() as int
    } else if s[from] == '\t' {
        from
    } else {
        field_end(s, from + 1)
    }
}

/// The fields of `s` from `from` on: what stands between the tabs.
pub open spec fn split_from(s: Seq<char>, from: int) -> Seq<Seq<char>>
    decreases s.len() - from,
{
    if from < 0 || from > s.len() {
        Seq::empty()
    } else {
        let e = field_end(s, from);
        if from <= e < s.len() {
            seq![s.subrange(from, e)] + split_from(s, e + 1)
        } else {
            seq![s.subrange(from, s.len() as int)]
        }
    }
}

/// The fields with a tab between each two.
pub open spec fn join(fields: Seq<Seq<char>>) -> Seq<char>
    decreases fields.len(),
{
    if fields.len() == 0 {
        Seq::empty()
    } else if fields.len() == 1 {
        fields[0]
    } else {
        (join(fields.drop_last()) + seq!['\t']) + fields.last()
    }
}

/// The number that tells whether a version follows.
pub open spec fn flag_of(version: Option<Version>) -> nat {
    if version is Some {
        1
    } else {
        0
    }
}

/// The three numbers written for a version; zeros where there is none.
pub open spec fn numbers_of(version: Option<Version>) -> (nat, nat, nat) {
    match version {
        Some(v) => (v.major as nat, v.minor as nat, v.patch as nat),
        None => (0, 0, 0),
    }
}

/// The fields of a record.
pub open spec fn fields_of(e: EntryView) -> Seq<Seq<char>> {
    seq![
        e.name,
        decimal(flag_of(e.version)),
        decimal(numbers_of(e.version).0),
        decimal(numbers_of(e.version).1),
        decimal(numbers_of(e.version).2),
        e.path,
        decimal(e.installed_at as nat),
    ]
}

/// The line that a record is written as.
pub open spec fn text_of(e: EntryView) -> Seq<char> {
    join(fields_of(e))
}

/// The record that the fields `fs` stand for, where they are seven, the
/// numbers are numbers and the flag is 0 or 1.
pub open spec fn record_of_fields(fs: Seq<Seq<char>>) -> Option<EntryView> {
    if fs.len() != 7 {
        None
    } else {
        match (number(fs[1]), number(fs[2]), number(fs[3]), number(fs[4]), number(fs[6])) {
            (Some(flag), Some(major), Some(minor), Some(patch), Some(at)) => if flag > 1 {
                None
            } else {
                Some(
                    EntryView {
                        name: fs[0],
                        version: if flag == 1 {
                            Some(Version { major, minor, patch })
                        } else {
                            None
                        },
                        path: fs[5],
                        installed_at: at,
                    },
                )
            },
            _ => None,
        }
    }
}

/// The record that the line `s` stands for.
pub open spec fn record_of(s: Seq<char>) -> Option<EntryView> {
    record_of_fields(split_from(s, 0))
}

/// A number in decimal is made of digits and stands for that number.
pub proof fn lemma_decimal_reads_back(n: nat)
    ensures
        all_digits(decimal(n)),
        value(decimal(n)) == n,
        plain(decimal(n)),
    decreases n,
{
    if n < 10 {
        assert(decimal(n).drop_last() =~= Seq::<char>::empty());
        assert(value(decimal(n).drop_last()) == 0);
    } else {
        lemma_decimal_reads_back(n / 10);
        assert(decimal(n).drop_last() =~= decimal(n / 10));
    }
}

/// The digits read so far stand for no more than the whole does.
proof fn lemma_value_grows(s: Seq<char>, i: int)
    requires
        0 <= i <= s.len(),
    ensures
        value(s.subrange(0, i)) <= value(s),
    decreases s.len() - i,
{
    if i < s.len() {
        assert(s.subrange(0, i + 1).drop_last() =~= s.subrange(0, i));
        lemma_value_grows(s, i + 1);
    } else {
        assert(s.subrange(0, i) =~= s);
    }
}

/// The end of a field stays where it is when a tab and another field are
/// put behind the text, and lies at the old end where there was none.
proof fn lemma_field_end_extended(a: Seq<char>, f: Seq<char>, from: int)
    requires
        0 <= from <= a.len(),
    ensures
        field_end((a + seq!['\t']) + f, from) == field_end(a, from),
        from <= field_end(a, from) <= a.len(),
    decreases a.len() - from,
{
    let s = (a + seq!['\t']) + f;
    if from < a.len() {
        assert(s[from] == a[from]);
        if a[from] != '\t' {
            lemma_field_end_extended(a, f, from + 1);
        }
    } else {
        assert(s[from] == '\t');
    }
}

/// A plain text is one field.
proof fn lemma_field_end_plain(s: Seq<char>, start: int, from: int)
    requires
        0 <= start <= from <= s.len(),
        forall|i: int| start <= i < s.len() ==> (#[trigger] s[i]) != '\t',
    ensures
        field_end(s, from) == s.len(),
    decreases s.len() - from,
{
    if from < s.len() {
        lemma_field_end_plain(s, start, from + 1);
    }
}

/// A tab and a plain field behind a text add that field to its fields.
proof fn lemma_split_extended(a: Seq<char>, f: Seq<char>, from: int)
    requires
        0 <= from <= a.len(),
        plain(f),
    ensures
        split_from((a + seq!['\t']) + f, from) == split_from(a, from).push(f),
    decreases a.len() - from,
{
    let s = (a + seq!['\t']) + f;
    lemma_field_end_extended(a, f, from);
    let e = field_end(a, from);
    if e < a.len() {
        lemma_split_extended(a, f, e + 1);
        assert(s.subrange(from, e) =~= a.subrange(from, e));
        assert(split_from(s, from) =~= split_from(a, from).push(f));
    } else {
        assert(s.subrange(from, e) =~= a.subrange(from, a.len() as int));
        assert forall|i: int| e + 1 <= i < s.len() implies (#[trigger] s[i]) != '\t' by {
            assert(s[i] == f[i - a.len() - 1]);
        }
        lemma_field_end_plain(s, e + 1, e + 1);
        assert(s.subrange(e + 1, s.len() as int) =~= f);
        assert(split_from(s, e + 1) =~= seq![f]);
        assert(split_from(s, from) =~= split_from(a, from).push(f));
    }
}

/// Plain fields, joined and split again, are the same fields.
pub proof fn lemma_split_of_join(fields: Seq<Seq<char>>)
    requires
        fields.len() > 0,
        forall|i: int| 0 <= i < fields.len() ==> plain(#[trigger] fields[i]),
    ensures
        split_from(join(fields), 0) == fields,
    decreases fields.len(),
{
    if fields.len() == 1 {
        let s = fields[0];
        assert(plain(fields[0]));
        lemma_field_end_plain(s, 0, 0);
        assert(s.subrange(0, s.len() as int) =~= s);
        assert(split_from(s, 0) =~= fields);
    } else {
        let init = fields.drop_last();
        assert forall|i: int| 0 <= i < init.len() implies plain(#[trigger] init[i]) by {
            assert(init[i] == fields[i]);
        }
        lemma_split_of_join(init);
        assert(plain(fields[fields.len() - 1]));
        lemma_split_extended(join(init), fields.last(), 0);
        assert(init.push(fields.last()) =~= fields);
    }
}

/// Reading what was written gives the same record, where the name and the
/// path can stand as fields.
pub proof fn lemma_read_back(e: EntryView)
    requires
        plain(e.name),
        plain(e.path),
    ensures
        record_of(text_of(e)) == Some(e),
{
    let fs = fields_of(e);
    lemma_decimal_reads_back(flag_of(e.version));
    lemma_decimal_reads_back(numbers_of(e.version).0);
    lemma_decimal_reads_back(numbers_of(e.version).1);
    lemma_decimal_reads_back(numbers_of(e.version).2);
    lemma_decimal_reads_back(e.installed_at as nat);
    assert forall|i: int| 0 <= i < fs.len() implies plain(#[trigger] fs[i]) by {}
    lemma_split_of_join(fs);
}

/// The text of one digit.
fn digit_text(d: u64) -> (r: &'static str)
    requires
        d < 10,
    ensures
        r@ == seq![digit_of(d as int)],
{
    proof {
        reveal_strlit("0");
        reveal_strlit("1");
        reveal_strlit("2");
        reveal_strlit("3");
        reveal_strlit("4");
        reveal_strlit("5");
        reveal_strlit("6");
        reveal_strlit("7");
        reveal_strlit("8");
        reveal_strlit("9");
    }
    let r = if d == 0 {
        "0"
    } else if d == 1 {
        "1"
    } else if d == 2 {
        "2"
    } else if d == 3 {
        "3"
    } else if d == 4 {
        "4"
    } else if d == 5 {
        "5"
    } else if d == 6 {
        "6"
    } else if d == 7 {
        "7"
    } else if d == 8 {
        "8"
    } else {
        "9"
    };
    assert(r@ =~= seq![digit_of(d as int)]);
    r
}

/// Puts `n` in decimal at the end of `out`.
pub fn append_decimal(out: &mut String, n: u64)
    ensures
        final(out)@ == old(out)@ + decimal(n as nat),
    decreases n,
{
    let ghost before = out@;
    if n >= 10 {
        append_decimal(out, n / 10);
    }
    out.append(digit_text(n % 10));
    assert(out@ =~= before + decimal(n as nat));
}

/// The number that `s` stands for, where it is made of digits and the
/// number fits.
pub fn read_number(s: &str) -> (r: Option<u64>)
    ensures
        r == number(s@),
{
    let n = s.unicode_len();
    if n == 0 {
        return None;
    }
    let mut acc: u64 = 0;
    let mut i: usize = 0;
    while i < n
        invariant
            i <= n,
            n == s@.len(),
            n > 0,
            acc == value(s@.subrange(0, i as int)),
            forall|k: int| 0 <= k < i ==> is_digit(#[trigger] s@[k]),
        decreases n - i,
    {
        let c = s.get_char(i);
        let d: u64 = if c == '0' {
            0
        } else if c == '1' {
            1
        } else if c == '2' {
            2
        } else if c == '3' {
            3
        } else if c == '4' {
            4
        } else if c == '5' {
            5
        } else if c == '6' {
            6
        } else if c == '7' {
            7
        } else if c == '8' {
            8
        } else if c == '9' {
            9
        } else {
            assert(!is_digit(s@[i as int]));
            return None;
        };
        proof {
            assert(s@.subrange(0, i + 1).drop_last() =~= s@.subrange(0, i as int));
            assert(s@.subrange(0, i + 1).last() == c);
            lemma_value_grows(s@, i + 1);
        }
        if acc > (u64::MAX - d) / 10 {
            return None;
        }
        acc = acc * 10 + d;
        i += 1;
    }
    assert(s@.subrange(0, n as int) =~= s@);
    Some(acc)
}

/// Whether `s` can stand as a field.
pub fn is_plain(s: &str) -> (r: bool)
    ensures
        r == plain(s@),
{
    let n = s.unicode_len();
    let mut i: usize = 0;
    while i < n
        invariant
            i <= n,
            n == s@.len(),
            forall|k: int| 0 <= k < i ==> (#[trigger] s@[k]) != '\t' && s@[k] != '\n',
        decreases n - i,
    {
        let c = s.get_char(i);
        if c == '\t' || c == '\n' {
            return false;
        }
        i += 1;
    }
    true
}

/// The fields of `line`: what stands between the tabs.
pub fn split(line: &str) -> (fields: Vec<String>)
    ensures
        names_of(fields@) == split_from(line@, 0),
{
    let n = line.unicode_len();
    let mut fields: Vec<String> = Vec::new();
    let mut start: usize = 0;
    let mut done = false;
    assert(names_of(fields@) + split_from(line@, 0) =~= split_from(line@, 0));
    while !done
        invariant
            n == line@.len(),
            start <= n,
            !done ==> split_from(line@, 0) == names_of(fields@) + split_from(line@, start as int),
            done ==> names_of(fields@) == split_from(line@, 0),
        decreases (n - start) + (if done { 0int } else { 1int }),
    {
        let mut e: usize = start;
        while e < n && line.get_char(e) != '\t'
            invariant
                start <= e <= n,
                n == line@.len(),
                field_end(line@, start as int) == field_end(line@, e as int),
            decreases n - e,
        {
            e += 1;
        }
        assert(field_end(line@, start as int) == e);
        let ghost before = names_of(fields@);
        fields.push(line.substring_char(start, e).to_owned());
        assert(names_of(fields@) =~= before.push(line@.subrange(start as int, e as int)));
        if e < n {
            assert(before.push(line@.subrange(start as int, e as int)) + split_from(line@, e + 1)
                =~= before + (seq![line@.subrange(start as int, e as int)] + split_from(
                line@,
                e + 1,
            )));
            start = e + 1;
        } else {
            assert(before.push(line@.subrange(start as int, e as int)) =~= before
                + seq![line@.subrange(start as int, line@.len() as int)]);
            done = true;
        }
    }
    fields
}

/// The record that `line` stands for, where it stands for one.
pub fn read_entry(line: &str) -> (r: Option<ManifestEntry>)
    ensures
        match r {
            Some(e) => record_of(line@) == Some(e@),
            None => record_of(line@) is None,
        },
{
    let fields = split(line);
    if fields.len() != 7 {
        return None;
    }
    let ghost fs = names_of(fields@);
    assert(fs[0] == fields@[0]@ && fs[1] == fields@[1]@ && fs[2] == fields@[2]@ && fs[3]
        == fields@[3]@ && fs[4] == fields@[4]@ && fs[5] == fields@[5]@ && fs[6] == fields@[6]@);
    let flag = match read_number(fields[1].as_str()) {
        Some(x) => x,
        None => {
            return None;
        },
    };
    let major = match read_number(fields[2].as_str()) {
        Some(x) => x,
        None => {
            return None;
        },
    };
    let minor = match read_number(fields[3].as_str()) {
        Some(x) => x,
        None => {
            return None;
        },
    };
    let patch = match read_number(fields[4].as_str()) {
        Some(x) => x,
        None => {
            return None;
        },
    };
    let installed_at = match read_number(fields[6].as_str()) {
        Some(x) => x,
        None => {
            return None;
        },
    };
    if flag > 1 {
        return None;
    }
    let version = if flag == 1 {
        Some(Version { major, minor, patch })
    } else {
        None
    };
    Some(
        ManifestEntry {
            name: fields[0].clone(),
            version,
            path: fields[5].clone(),
            installed_at,
        },
    )
}

proof fn lemma_join_push(fields: Seq<Seq<char>>, f: Seq<char>)
    requires
        fields.len() > 0,
    ensures
        join(fields.push(f)) == (join(fields) + seq!['\t']) + f,
{
    assert(fields.push(f).drop_last() =~= fields);
}

/// Puts a tab and `n` in decimal at the end of `out`.
fn append_number(out: &mut String, n: u64, Ghost(fields): Ghost<Seq<Seq<char>>>)
    requires
        fields.len() > 0,
        old(out)@ == join(fields),
    ensures
        final(out)@ == join(fields.push(decimal(n as nat))),
{
    proof {
        reveal_strlit("\t");
        lemma_join_push(fields, decimal(n as nat));
    }
    let ghost before = out@;
    out.append("\t");
    assert(out@ =~= before + seq!['\t']);
    append_decimal(out, n);
}

/// The line for `entry`, where its name and its path can stand as fields;
/// otherwise `None`.
pub fn write_entry(entry: &ManifestEntry) -> (r: Option<String>)
    ensures
        r is Some <==> plain(entry@.name) && plain(entry@.path),
        r is Some ==> r->0@ == text_of(entry@),
{
    if !is_plain(entry.name.as_str()) || !is_plain(entry.path.as_str()) {
        return None;
    }
    let flag: u64 = if entry.version.is_some() {
        1
    } else {
        0
    };
    let (major, minor, patch): (u64, u64, u64) = match entry.version {
        Some(v) => (v.major, v.minor, v.patch),
        None => (0, 0, 0),
    };
    let mut out = entry.name.clone();
    let ghost f1 = seq![entry@.name];
    assert(out@ == join(f1));
    append_number(&mut out, flag, Ghost(f1));
    let ghost f2 = f1.push(decimal(flag as nat));
    append_number(&mut out, major, Ghost(f2));
    let ghost f3 = f2.push(decimal(major as nat));
    append_number(&mut out, minor, Ghost(f3));
    let ghost f4 = f3.push(decimal(minor as nat));
    append_number(&mut out, patch, Ghost(f4));
    let ghost f5 = f4.push(decimal(patch as nat));
    let ghost f6 = f5.push(entry@.path);
    proof {
        reveal_strlit("\t");
        lemma_join_push(f5, entry@.path);
    }
    let ghost before = out@;
    out.append("\t");
    assert(out@ =~= before + seq!['\t']);
    out.append(entry.path.as_str());
    assert(out@ == join(f6));
    append_number(&mut out, entry.installed_at, Ghost(f6));
    assert(f6.push(decimal(entry.installed_at as nat)) =~= fields_of(entry@));
    Some(out)
}

} // verus!
