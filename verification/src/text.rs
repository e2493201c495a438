//! Small functions on text and on lists of names.
use vstd::prelude::*;
use vstd::string::*;

verus! {

/// Whether a character has the Unicode property White_Space.
pub open spec fn white_space(c: char) -> bool {
    let n = c as u32;
    ||| 0x9 <= n <= 0xd
    ||| n == 0x20
    ||| n == 0x85
    ||| n == 0xa0
    ||| n == 0x1680
    ||| 0x2000 <= n <= 0x200a
    ||| n == 0x2028
    ||| n == 0x2029
    ||| n == 0x202f
    ||| n == 0x205f
    ||| n == 0x3000
}

/// Whether nothing is left of a text once white space is trimmed off both ends.
pub open spec fn blank(s: Seq<char>) -> bool {
    forall|i: int| 0 <= i < s.len() ==> white_space(#[trigger] s[i])
}

/// White space is these twenty-five characters, and a text is blank exactly if
/// it is nothing else: both of two parts are, and every character is.
pub proof fn blanks_char_by_char(a: Seq<char>, b: Seq<char>, c: char)
    ensures
        white_space(c) <==> seq![
            '\u{9}',
            '\u{a}',
            '\u{b}',
            '\u{c}',
            '\u{d}',
            '\u{20}',
            '\u{85}',
            '\u{a0}',
            '\u{1680}',
            '\u{2000}',
            '\u{2001}',
            '\u{2002}',
            '\u{2003}',
            '\u{2004}',
            '\u{2005}',
            '\u{2006}',
            '\u{2007}',
            '\u{2008}',
            '\u{2009}',
            '\u{200a}',
            '\u{2028}',
            '\u{2029}',
            '\u{202f}',
            '\u{205f}',
            '\u{3000}',
        ].contains(c),
        blank(a + b) <==> blank(a) && blank(b),
        blank(seq![c]) <==> white_space(c),
        blank(Seq::empty()),
{
    let all = seq![
        '\u{9}', '\u{a}', '\u{b}', '\u{c}', '\u{d}', '\u{20}', '\u{85}', '\u{a0}', '\u{1680}',
        '\u{2000}', '\u{2001}', '\u{2002}', '\u{2003}', '\u{2004}', '\u{2005}', '\u{2006}', '\u{2007}',
        '\u{2008}', '\u{2009}', '\u{200a}', '\u{2028}', '\u{2029}', '\u{202f}', '\u{205f}', '\u{3000}',
    ];
    if white_space(c) {
        assert(all[0] == c || all[1] == c || all[2] == c || all[3] == c || all[4] == c || all[5] == c
            || all[6] == c || all[7] == c || all[8] == c || all[9] == c || all[10] == c || all[11] == c
            || all[12] == c || all[13] == c || all[14] == c || all[15] == c || all[16] == c || all[17]
            == c || all[18] == c || all[19] == c || all[20] == c || all[21] == c || all[22] == c
            || all[23] == c || all[24] == c);
    }
    if blank(a + b) {
        assert forall|i: int| 0 <= i < a.len() implies white_space(#[trigger] a[i]) by {
            assert((a + b)[i] == a[i]);
        }
        assert forall|i: int| 0 <= i < b.len() implies white_space(#[trigger] b[i]) by {
            assert((a + b)[a.len() + i] == b[i]);
        }
    }
    if blank(seq![c]) {
        assert(seq![c][0] == c);
    }
}

fn is_white_space(c: char) -> (r: bool)
    ensures
        r == white_space(c),
{
    let n: u32 = c as u32;
    (0x9 <= n && n <= 0xd) || n == 0x20 || n == 0x85 || n == 0xa0 || n == 0x1680 || (0x2000 <= n
        && n <= 0x200a) || n == 0x2028 || n == 0x2029 || n == 0x202f || n == 0x205f || n == 0x3000
}

/// Whether a text is empty but for white space.
pub fn is_blank(s: &str) -> (r: bool)
    ensures
        r == blank(s@),
{
    for c in it: s.chars()
        invariant
            it.seq() == s@,
            forall|i: int| 0 <= i < it.index() ==> white_space(#[trigger] s@[i]),
    {
        if !is_white_space(c) {
            assert(!white_space(s@[it.index() as int]));
            return false;
        }
    }
    true
}

/// The next place from `from` on where a character stands, or the end of the text.
pub open spec fn next_mark(s: Seq<char>, from: int, mark: char) -> int
    decreases s.len() - from,
{
    if from >= s.len() || s[from] == mark {
        from
    } else {
        next_mark(s, from + 1, mark)
    }
}

/// The next mark stands at `from` or later, and within the text.
pub proof fn next_mark_bounds(s: Seq<char>, from: int, mark: char)
    ensures
        from <= next_mark(s, from, mark),
        from <= s.len() ==> next_mark(s, from, mark) <= s.len(),
        next_mark(s, from, mark) < s.len() ==> s[next_mark(s, from, mark)] == mark,
        forall|i: int| from <= i < next_mark(s, from, mark) ==> #[trigger] s[i] != mark,
    decreases s.len() - from,
{
    if from < s.len() && s[from] != mark {
        next_mark_bounds(s, from + 1, mark);
    }
}

/// The characters of a text.
pub(crate) fn all_chars(s: &str) -> (r: Vec<char>)
    ensures
        r@ == s@,
{
    let mut out: Vec<char> = Vec::new();
    for c in it: s.chars()
        invariant
            it.seq() == s@,
            out@ == s@.take(it.index() as int),
    {
        assert(s@.take(it.index() + 1) =~= s@.take(it.index() as int).push(c));
        out.push(c);
    }
    assert(s@.take(s@.len() as int) =~= s@);
    out
}

/// The next place from `from` on where a character stands, or the end of the text.
pub(crate) fn find_mark(s: &Vec<char>, from: usize, mark: char) -> (r: usize)
    requires
        from <= s@.len(),
    ensures
        r == next_mark(s@, from as int, mark),
        from <= r <= s@.len(),
{
    let mut i: usize = from;
    while i < s.len()
        invariant
            from <= i <= s@.len(),
            next_mark(s@, from as int, mark) == next_mark(s@, i as int, mark),
        decreases s@.len() - i,
    {
        if s[i] == mark {
            return i;
        }
        i = i + 1;
    }
    i
}

/// A text without the spaces that it begins with.
pub open spec fn unpadded(s: Seq<char>) -> Seq<char>
    decreases s.len(),
{
    if s.len() > 0 && s[0] == ' ' {
        unpadded(s.skip(1))
    } else {
        s
    }
}

/// Whether one begins with the other.
pub open spec fn begins(s: Seq<char>, prefix: Seq<char>) -> bool {
    s.len() >= prefix.len() && s.take(prefix.len() as int) == prefix
}

/// One text begins with another exactly if it is that other and something behind it.
pub proof fn beginnings(s: Seq<char>, prefix: Seq<char>, rest: Seq<char>)
    ensures
        begins(prefix + rest, prefix),
        begins(s, prefix) <==> exists|r: Seq<char>| s == #[trigger] (prefix + r),
        begins(s, prefix) <==> s.len() >= prefix.len() && forall|i: int|
            0 <= i < prefix.len() ==> #[trigger] s[i] == prefix[i],
{
    assert((prefix + rest).take(prefix.len() as int) =~= prefix);
    if begins(s, prefix) {
        assert(s =~= prefix + s.skip(prefix.len() as int));
        assert forall|i: int| 0 <= i < prefix.len() implies #[trigger] s[i] == prefix[i] by {
            assert(s.take(prefix.len() as int)[i] == s[i]);
        }
    }
    if exists|r: Seq<char>| s == #[trigger] (prefix + r) {
        assert(s.take(prefix.len() as int) =~= prefix);
    }
    if s.len() >= prefix.len() && forall|i: int|
        0 <= i < prefix.len() ==> #[trigger] s[i] == prefix[i] {
        assert(s.take(prefix.len() as int) =~= prefix);
    }
}

/// Whether one begins with the other.
pub fn starts_with(text: &str, prefix: &str) -> (r: bool)
    ensures
        r == begins(text@, prefix@),
{
    let size: usize = prefix.unicode_len();
    if text.unicode_len() < size {
        return false;
    }
    let head = text.substring_char(0, size).to_owned();
    assert(head@ =~= text@.take(size as int));
    head == prefix.to_owned()
}

/// The parts of a text are set apart by a mark. What follows the prefix, in
/// each part from `from` on that begins with it.
pub open spec fn values_from(s: Seq<char>, from: int, mark: char, prefix: Seq<char>) -> Seq<
    Seq<char>,
>
    decreases s.len() + 1 - from,
{
    if from >= s.len() {
        seq![]
    } else {
        proof {
            next_mark_bounds(s, from, mark);
        }
        let end = next_mark(s, from, mark);
        let part = unpadded(s.subrange(from, end));
        let rest = values_from(s, end + 1, mark, prefix);
        if begins(part, prefix) {
            seq![part.skip(prefix.len() as int)] + rest
        } else {
            rest
        }
    }
}

/// What follows the prefix, in each part of a text that begins with it.
pub open spec fn values(s: Seq<char>, mark: char, prefix: Seq<char>) -> Seq<Seq<char>> {
    values_from(s, 0, mark, prefix)
}

proof fn unpadded_is_a_part(s: Seq<char>, mark: char)
    requires
        !s.contains(mark),
    ensures
        !unpadded(s).contains(mark),
    decreases s.len(),
{
    if s.len() > 0 && s[0] == ' ' {
        assert(!s.skip(1).contains(mark)) by {
            assert forall|i: int| 0 <= i < s.skip(1).len() implies #[trigger] s.skip(1)[i] != mark by {
                assert(s[i + 1] != mark);
            }
        }
        unpadded_is_a_part(s.skip(1), mark);
    }
}

/// No mark is in what is found between marks.
pub proof fn values_hold_no_mark(s: Seq<char>, from: int, mark: char, prefix: Seq<char>)
    requires
        0 <= from,
    ensures
        forall|k: int|
            0 <= k < values_from(s, from, mark, prefix).len() ==> !(#[trigger] values_from(
                s,
                from,
                mark,
                prefix,
            )[k]).contains(mark),
    decreases s.len() + 1 - from,
{
    if from < s.len() {
        next_mark_bounds(s, from, mark);
        let end = next_mark(s, from, mark);
        let whole = s.subrange(from, end);
        let part = unpadded(whole);
        values_hold_no_mark(s, end + 1, mark, prefix);
        assert(!whole.contains(mark)) by {
            assert forall|i: int| 0 <= i < whole.len() implies #[trigger] whole[i] != mark by {
                assert(s[from + i] != mark);
            }
        }
        unpadded_is_a_part(whole, mark);
        if begins(part, prefix) {
            let value = part.skip(prefix.len() as int);
            assert forall|i: int| 0 <= i < value.len() implies #[trigger] value[i] != mark by {
                assert(part.contains(part[prefix.len() + i]));
            }
        }
        let rest = values_from(s, end + 1, mark, prefix);
        let all = values_from(s, from, mark, prefix);
        assert forall|k: int| 0 <= k < all.len() implies !(#[trigger] all[k]).contains(mark) by {
            if !begins(part, prefix) {
                assert(all[k] == rest[k]);
            } else if k > 0 {
                assert(all[k] == rest[k - 1]);
            }
        }
    }
}

/// In a text with a mark behind it, the next mark is where it is in the text alone.
pub proof fn next_mark_in_front(a: Seq<char>, s: Seq<char>, from: int, mark: char)
    requires
        0 <= from <= a.len() < s.len(),
        s.take(a.len() as int) == a,
        s[a.len() as int] == mark,
    ensures
        next_mark(s, from, mark) == next_mark(a, from, mark),
    decreases a.len() - from,
{
    if from < a.len() {
        assert(s.take(a.len() as int)[from] == s[from]);
        if a[from] != mark {
            next_mark_in_front(a, s, from + 1, mark);
        }
    }
}

/// Where no mark follows, the next one is the end of the text.
pub proof fn next_mark_at_the_end(s: Seq<char>, from: int, mark: char)
    requires
        0 <= from <= s.len(),
        forall|i: int| from <= i < s.len() ==> #[trigger] s[i] != mark,
    ensures
        next_mark(s, from, mark) == s.len(),
    decreases s.len() - from,
{
    if from < s.len() {
        next_mark_at_the_end(s, from + 1, mark);
    }
}

/// What is found in a part.
pub open spec fn value_of(part: Seq<char>, prefix: Seq<char>) -> Seq<Seq<char>> {
    if begins(unpadded(part), prefix) {
        seq![unpadded(part).skip(prefix.len() as int)]
    } else {
        seq![]
    }
}

/// Where one more part is put behind a text, what is found in that part comes
/// to what is found in the text.
pub proof fn one_more_part(
    a: Seq<char>,
    b: Seq<char>,
    from: int,
    mark: char,
    prefix: Seq<char>,
)
    requires
        0 <= from <= a.len(),
        !b.contains(mark),
        prefix.len() > 0,
    ensures
        values_from(a + seq![mark] + b, from, mark, prefix) == values_from(a, from, mark, prefix)
            + value_of(b, prefix),
    decreases a.len() - from,
{
    let s = a + seq![mark] + b;
    let n = a.len() as int;
    assert(s.take(n) =~= a);
    // The last part.
    assert forall|i: int| n + 1 <= i < s.len() implies #[trigger] s[i] != mark by {
        assert(b.contains(b[i - n - 1]));
    }
    next_mark_at_the_end(s, n + 1, mark);
    assert(s.subrange(n + 1, s.len() as int) =~= b);
    assert(values_from(s, s.len() as int + 1, mark, prefix) =~= seq![]);
    assert(values_from(s, n + 1, mark, prefix) =~= value_of(b, prefix));
    // The parts before it.
    next_mark_in_front(a, s, from, mark);
    next_mark_bounds(a, from, mark);
    let end = next_mark(a, from, mark);
    assert(s.subrange(from, end) =~= a.subrange(from, end));
    if from < n {
        if end < n {
            one_more_part(a, b, end + 1, mark, prefix);
        } else {
            assert(values_from(a, n + 1, mark, prefix) =~= seq![]);
        }
        assert(values_from(s, from, mark, prefix) =~= values_from(a, from, mark, prefix) + value_of(
            b,
            prefix,
        ));
    } else {
        assert(s.subrange(from, end) =~= seq![]);
        assert(values_from(a, from, mark, prefix) =~= seq![]);
        assert(values_from(s, from, mark, prefix) =~= value_of(b, prefix));
    }
}

proof fn spaces_go(n: nat, rest: Seq<char>)
    requires
        rest.len() == 0 || rest[0] != ' ',
    ensures
        unpadded(Seq::new(n, |i: int| ' ') + rest) == rest,
    decreases n,
{
    let whole = Seq::new(n, |i: int| ' ') + rest;
    if n > 0 {
        assert(whole[0] == ' ');
        assert(whole.skip(1) =~= Seq::new((n - 1) as nat, |i: int| ' ') + rest);
        spaces_go((n - 1) as nat, rest);
    } else {
        assert(whole =~= rest);
    }
}

proof fn the_only_part(b: Seq<char>, mark: char, prefix: Seq<char>)
    requires
        !b.contains(mark),
        prefix.len() > 0,
    ensures
        values(b, mark, prefix) == value_of(b, prefix),
{
    assert forall|i: int| 0 <= i < b.len() implies #[trigger] b[i] != mark by {
        assert(b.contains(b[i]));
    }
    next_mark_at_the_end(b, 0, mark);
    assert(b.subrange(0, b.len() as int) =~= b);
    assert(values_from(b, b.len() as int + 1, mark, prefix) =~= seq![]);
    assert(values(b, mark, prefix) =~= value_of(b, prefix));
}

/// A part that begins with the prefix, after any spaces, adds what follows the
/// prefix behind what the parts before it hold; so does the first part. A part
/// that begins otherwise adds nothing.
pub proof fn a_part_adds_its_value(
    before: Seq<char>,
    spaces: nat,
    prefix: Seq<char>,
    value: Seq<char>,
    other: Seq<char>,
    mark: char,
)
    requires
        prefix.len() > 0,
        prefix[0] != ' ',
        mark != ' ',
        !prefix.contains(mark),
        !value.contains(mark),
        !other.contains(mark),
        other.len() == 0 || other[0] != ' ',
        other.len() < prefix.len() || other.take(prefix.len() as int) != prefix,
    ensures
        ({
            let pad = Seq::new(spaces, |i: int| ' ');
            &&& values(before + seq![mark] + (pad + (prefix + value)), mark, prefix) == values(
                before,
                mark,
                prefix,
            ).push(value)
            &&& values(pad + (prefix + value), mark, prefix) == seq![value]
            &&& values(before + seq![mark] + (pad + other), mark, prefix) == values(
                before,
                mark,
                prefix,
            )
            &&& values(pad + other, mark, prefix) == Seq::<Seq<char>>::empty()
        }),
{
    let pad = Seq::new(spaces, |i: int| ' ');
    let core = prefix + value;
    let part = pad + core;
    let rest = pad + other;
    assert(core[0] == prefix[0]);
    spaces_go(spaces, core);
    spaces_go(spaces, other);
    assert(core.take(prefix.len() as int) =~= prefix);
    assert(core.skip(prefix.len() as int) =~= value);
    assert(value_of(part, prefix) == seq![value]);
    assert(value_of(rest, prefix) == Seq::<Seq<char>>::empty());
    assert forall|i: int| 0 <= i < part.len() implies #[trigger] part[i] != mark by {
        let n = pad.len() + prefix.len();
        if pad.len() <= i < n {
            assert(prefix.contains(prefix[i - pad.len()]));
        } else if n <= i {
            assert(value.contains(value[i - n]));
        }
    }
    assert forall|i: int| 0 <= i < rest.len() implies #[trigger] rest[i] != mark by {
        if pad.len() <= i {
            assert(other.contains(other[i - pad.len()]));
        }
    }
    one_more_part(before, part, 0, mark, prefix);
    one_more_part(before, rest, 0, mark, prefix);
    the_only_part(part, mark, prefix);
    the_only_part(rest, mark, prefix);
    let all = values(before, mark, prefix);
    assert(all + seq![value] =~= all.push(value));
    assert(all + Seq::<Seq<char>>::empty() =~= all);
}

fn find_text(s: &Vec<char>, from: usize, to: usize) -> (r: usize)
    requires
        from <= to <= s@.len(),
    ensures
        from <= r <= to,
        s@.subrange(r as int, to as int) == unpadded(s@.subrange(from as int, to as int)),
{
    let mut i: usize = from;
    while i < to && s[i] == ' '
        invariant
            from <= i <= to <= s@.len(),
            unpadded(s@.subrange(i as int, to as int)) == unpadded(
                s@.subrange(from as int, to as int),
            ),
        decreases to - i,
    {
        assert(s@.subrange(i as int, to as int).skip(1) =~= s@.subrange(i + 1, to as int));
        i = i + 1;
    }
    i
}

/// What follows the prefix, in each part of a text that begins with it.
pub fn find_values(text: &str, mark: char, prefix: &str) -> (r: Vec<String>)
    ensures
        r.deep_view() == values(text@, mark, prefix@),
{
    let wanted = prefix.to_owned();
    let size: usize = prefix.unicode_len();
    let s = all_chars(text);
    let mut out: Vec<String> = Vec::new();
    let mut from: usize = 0;
    assert(out.deep_view() =~= seq![]);
    while from < s.len()
        invariant
            s@ == text@,
            wanted@ == prefix@,
            size == prefix@.len(),
            values(text@, mark, prefix@) =~= out.deep_view() + values_from(
                text@,
                from as int,
                mark,
                prefix@,
            ),
        decreases text@.len() - from,
    {
        let end: usize = find_mark(&s, from, mark);
        let start: usize = find_text(&s, from, end);
        let ghost part = unpadded(s@.subrange(from as int, end as int));
        let ghost found = out.deep_view();
        if end - start >= size {
            let head = text.substring_char(start, start + size).to_owned();
            assert(part.take(size as int) =~= head@);
            if head == wanted {
                let value = text.substring_char(start + size, end).to_owned();
                assert(part.skip(size as int) =~= value@);
                let ghost v = value@;
                out.push(value);
                assert(out.deep_view() =~= found.push(v));
            }
        }
        if end == s.len() {
            assert(values_from(text@, end + 1, mark, prefix@) =~= seq![]);
            assert(out.deep_view() =~= values(text@, mark, prefix@));
            return out;
        }
        from = end + 1;
    }
    assert(values_from(text@, from as int, mark, prefix@) =~= seq![]);
    out
}

/// The first place of `id` in a list of names.
pub fn position(ids: &Vec<String>, id: &String) -> (r: Option<usize>)
    ensures
        match r {
            Some(i) => i < ids@.len() && ids.deep_view()[i as int] == id@ && forall|j: int|
                0 <= j < i ==> #[trigger] ids.deep_view()[j] != id@,
            None => !ids.deep_view().contains(id@),
        },
{
    let mut i: usize = 0;
    while i < ids.len()
        invariant
            i <= ids@.len(),
            forall|j: int| 0 <= j < i ==> #[trigger] ids.deep_view()[j] != id@,
        decreases ids@.len() - i,
    {
        if ids[i] == *id {
            return Some(i);
        }
        i = i + 1;
    }
    None
}

/// Whether `id` is in a list of names.
pub fn contains(ids: &Vec<String>, id: &String) -> (r: bool)
    ensures
        r == ids.deep_view().contains(id@),
{
    match position(ids, id) {
        Some(i) => {
            assert(ids.deep_view()[i as int] == id@);
            true
        },
        None => false,
    }
}

/// A copy of a list of names.
pub fn copy_ids(ids: &[String]) -> (r: Vec<String>)
    ensures
        r.deep_view() == ids.deep_view(),
{
    let n: usize = ids.len();
    let mut out: Vec<String> = Vec::new();
    let mut i: usize = 0;
    while i < n
        invariant
            n == ids@.len(),
            i <= n,
            out@ == ids@.take(i as int),
        decreases n - i,
    {
        out.push(ids[i].clone());
        i = i + 1;
        assert(ids@.take(i as int) =~= ids@.take(i - 1).push(ids@[i - 1]));
    }
    assert(ids@.take(i as int) =~= ids@);
    assert(out.deep_view() =~= ids.deep_view());
    out
}

/// Whether no name is in a list twice.
pub fn all_distinct(ids: &Vec<String>) -> (r: bool)
    ensures
        r == ids.deep_view().no_duplicates(),
{
    let ghost view = ids.deep_view();
    let mut i: usize = 0;
    while i < ids.len()
        invariant
            i <= ids@.len(),
            view == ids.deep_view(),
            forall|a: int, b: int| 0 <= a < b < i ==> #[trigger] view[a] != #[trigger] view[b],
        decreases ids@.len() - i,
    {
        let mut j: usize = 0;
        while j < i
            invariant
                j <= i < ids@.len(),
                view == ids.deep_view(),
                forall|a: int| 0 <= a < j ==> #[trigger] view[a] != view[i as int],
            decreases i - j,
        {
            if ids[j] == ids[i] {
                assert(view[j as int] == view[i as int]);
                return false;
            }
            j = j + 1;
        }
        i = i + 1;
    }
    true
}

} // verus!
