//! The media names of a session description.
use crate::text::{
    all_chars, find_mark, next_mark, next_mark_at_the_end, next_mark_bounds, next_mark_in_front,
};
use vstd::prelude::*;
use vstd::string::*;

verus! {

/// The end of the line that begins at `from`: the next line feed, or the end of the text.
pub open spec fn line_end(s: Seq<char>, from: int) -> int {
    next_mark(s, from, '\n')
}

/// The line that begins at `from`, without a carriage return at its end.
pub open spec fn line(s: Seq<char>, from: int) -> Seq<char> {
    let l = s.subrange(from, line_end(s, from));
    if l.len() > 0 && l.last() == '\r' {
        l.drop_last()
    } else {
        l
    }
}

/// Whether a line names a media section.
pub open spec fn names_media(l: Seq<char>) -> bool {
    l.len() >= 6 && l.take(6) == "a=mid:"@
}

/// The media names in the lines from `from` on, in their order.
pub open spec fn mids_from(s: Seq<char>, from: int) -> Seq<Seq<char>>
    decreases s.len() + 1 - from,
{
    if from >= s.len() {
        seq![]
    } else {
        proof {
            next_mark_bounds(s, from, '\n');
        }
        let rest = mids_from(s, line_end(s, from) + 1);
        if names_media(line(s, from)) {
            seq![line(s, from).skip(6)] + rest
        } else {
            rest
        }
    }
}

/// The media names of a session description, in the order of its sections.
pub open spec fn mids(sdp: Seq<char>) -> Seq<Seq<char>> {
    mids_from(sdp, 0)
}

/// Whether the characters from `from` to `to` begin as a line does that names a media section.
fn begins_media(s: &Vec<char>, from: usize, to: usize) -> (r: bool)
    requires
        from <= to <= s@.len(),
    ensures
        r == names_media(s@.subrange(from as int, to as int)),
{
    proof {
        reveal_strlit("a=mid:");
    }
    let ghost l = s@.subrange(from as int, to as int);
    if to - from < 6 {
        return false;
    }
    let r = s[from] == 'a' && s[from + 1] == '=' && s[from + 2] == 'm' && s[from + 3] == 'i' && s[from
        + 4] == 'd' && s[from + 5] == ':';
    proof {
        if r {
            assert(l.take(6) =~= "a=mid:"@);
        } else {
            assert(forall|i: int| 0 <= i < 6 ==> l.take(6)[i] == s@[from + i]);
            assert("a=mid:"@[0] == 'a' && "a=mid:"@[1] == '=' && "a=mid:"@[2] == 'm'
                && "a=mid:"@[3] == 'i' && "a=mid:"@[4] == 'd' && "a=mid:"@[5] == ':');
        }
    }
    r
}

/// The media names of a session description, in the order of its sections.
pub fn media_names(sdp: &str) -> (r: Vec<String>)
    ensures
        r.deep_view() == mids(sdp@),
{
    let s = all_chars(sdp);
    let mut out: Vec<String> = Vec::new();
    let mut from: usize = 0;
    assert(out.deep_view() =~= seq![]);
    while from < s.len()
        invariant
            s@ == sdp@,
            mids(sdp@) =~= out.deep_view() + mids_from(sdp@, from as int),
        decreases sdp@.len() - from,
    {
        let end: usize = find_mark(&s, from, '\n');
        let cut: usize = if end > from && s[end - 1] == '\r' {
            end - 1
        } else {
            end
        };
        assert(line(s@, from as int) =~= s@.subrange(from as int, cut as int));
        let ghost told = out.deep_view();
        if begins_media(&s, from, cut) {
            let name = sdp.substring_char(from + 6, cut);
            assert(name@ =~= line(s@, from as int).skip(6));
            out.push(name.to_owned());
            assert(out.deep_view() =~= told.push(name@));
        }
        if end == s.len() {
            assert(mids_from(sdp@, end + 1) =~= seq![]);
            assert(out.deep_view() =~= mids(sdp@));
            return out;
        }
        from = end + 1;
    }
    assert(mids_from(sdp@, from as int) =~= seq![]);
    out
}

/// What one line, without a line feed in it, names.
spec fn named_in(l: Seq<char>) -> Seq<Seq<char>> {
    let cut = if l.len() > 0 && l.last() == '\r' {
        l.drop_last()
    } else {
        l
    };
    if names_media(cut) {
        seq![cut.skip(6)]
    } else {
        seq![]
    }
}

proof fn one_more_line(a: Seq<char>, b: Seq<char>, from: int)
    requires
        0 <= from <= a.len(),
        !b.contains('\n'),
    ensures
        mids_from(a + seq!['\n'] + b, from) == mids_from(a, from) + named_in(b),
    decreases a.len() - from,
{
    let s = a + seq!['\n'] + b;
    let n = a.len() as int;
    assert(s.take(n) =~= a);
    assert forall|i: int| n + 1 <= i < s.len() implies #[trigger] s[i] != '\n' by {
        assert(b.contains(b[i - n - 1]));
    }
    next_mark_at_the_end(s, n + 1, '\n');
    assert(s.subrange(n + 1, s.len() as int) =~= b);
    assert(mids_from(s, s.len() as int + 1) =~= seq![]);
    assert(line(s, n + 1) == if b.len() > 0 && b.last() == '\r' {
        b.drop_last()
    } else {
        b
    });
    reveal_strlit("a=mid:");
    assert(mids_from(s, n + 1) =~= named_in(b));
    next_mark_in_front(a, s, from, '\n');
    next_mark_bounds(a, from, '\n');
    let end = next_mark(a, from, '\n');
    assert(s.subrange(from, end) =~= a.subrange(from, end));
    assert(line(s, from) == line(a, from));
    if from < n {
        if end < n {
            one_more_line(a, b, end + 1);
        } else {
            assert(mids_from(a, n + 1) =~= seq![]);
        }
        assert(mids_from(s, from) =~= mids_from(a, from) + named_in(b));
    } else {
        assert(s.subrange(from, end) =~= seq![]);
        assert(mids_from(a, from) =~= seq![]);
        assert(mids_from(s, from) =~= named_in(b));
    }
}

proof fn one_line(b: Seq<char>)
    requires
        !b.contains('\n'),
    ensures
        mids(b) == named_in(b),
{
    reveal_strlit("a=mid:");
    assert forall|i: int| 0 <= i < b.len() implies #[trigger] b[i] != '\n' by {
        assert(b.contains(b[i]));
    }
    next_mark_at_the_end(b, 0, '\n');
    assert(b.subrange(0, b.len() as int) =~= b);
    assert(mids_from(b, b.len() as int + 1) =~= seq![]);
    assert(mids(b) =~= named_in(b));
}

/// A line that names a media section adds that name behind those of the lines
/// before it, whether it ends with a carriage return or not. The first line of
/// a text does the same.
pub proof fn a_line_adds_its_name(before: Seq<char>, name: Seq<char>)
    requires
        !name.contains('\n'),
        name.len() == 0 || name.last() != '\r',
    ensures
        mids(before + seq!['\n'] + ("a=mid:"@ + name)) == mids(before).push(name),
        mids(before + seq!['\n'] + ("a=mid:"@ + name + seq!['\r'])) == mids(before).push(name),
        mids("a=mid:"@ + name) == seq![name],
        mids("a=mid:"@ + name + seq!['\r']) == seq![name],
{
    reveal_strlit("a=mid:");
    let plain = "a=mid:"@ + name;
    let ended = plain + seq!['\r'];
    assert forall|i: int| 0 <= i < ended.len() implies #[trigger] ended[i] != '\n' by {
        if 6 <= i < plain.len() {
            assert(name.contains(name[i - 6]));
        }
    }
    assert forall|i: int| 0 <= i < plain.len() implies #[trigger] plain[i] != '\n' by {
        assert(ended[i] != '\n');
    }
    assert(ended.drop_last() =~= plain);
    assert(plain.take(6) =~= "a=mid:"@);
    assert(plain.skip(6) =~= name);
    if name.len() > 0 {
        assert(plain.last() == name.last());
    } else {
        assert(plain.last() == ':');
    }
    assert(named_in(plain) == seq![name]);
    assert(named_in(ended) == seq![name]);
    one_more_line(before, plain, 0);
    one_more_line(before, ended, 0);
    one_line(plain);
    one_line(ended);
    assert(mids(before) + seq![name] =~= mids(before).push(name));
}

/// A line that does not begin as one does that names a media section adds nothing.
pub proof fn another_line_adds_nothing(before: Seq<char>, l: Seq<char>)
    requires
        !l.contains('\n'),
        l.len() < 6 || l.take(6) != "a=mid:"@,
    ensures
        mids(before + seq!['\n'] + l) == mids(before),
        mids(l) == Seq::<Seq<char>>::empty(),
{
    reveal_strlit("a=mid:");
    let cut = if l.len() > 0 && l.last() == '\r' {
        l.drop_last()
    } else {
        l
    };
    if cut.len() >= 6 {
        assert(cut.take(6) =~= l.take(6));
    }
    assert(named_in(l) == Seq::<Seq<char>>::empty());
    one_more_line(before, l, 0);
    one_line(l);
    assert(mids(before) + Seq::<Seq<char>>::empty() =~= mids(before));
}

} // verus!
