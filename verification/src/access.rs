//! Access control.
use vstd::prelude::*;

use crate::digits;
use crate::digits::parse_integer;
use crate::text::chars_of;
use crate::words;
use crate::words::trim_range;

verus! {

/// True when the user may talk to the bot: nobody is kept out where the list is empty, else
/// the user has to be on it.
pub open spec fn admits(allowed: Seq<i64>, user_id: Option<i64>) -> bool {
    allowed.len() == 0 || (user_id matches Some(id) && allowed.contains(id))
}

/// The integers among `parts`, in their order.
pub open spec fn integers(parts: Seq<Seq<char>>) -> Seq<i64>
    decreases parts.len(),
{
    if parts.len() == 0 {
        Seq::empty()
    } else {
        match digits::parsed(words::trimmed(parts.last())) {
            Some(id) => integers(parts.drop_last()).push(id),
            None => integers(parts.drop_last()),
        }
    }
}

/// The user IDs in a comma-separated list. What is no 64-bit integer is passed over.
pub open spec fn listed(s: Seq<char>) -> Seq<i64> {
    integers(words::split(s, ','))
}

/// True when the user may talk to the bot.
pub fn is_user_allowed(allowed: &[i64], user_id: Option<i64>) -> (admitted: bool)
    ensures
        admitted == admits(allowed@, user_id),
{
    if allowed.len() == 0 {
        return true;
    }
    match user_id {
        None => false,
        Some(id) => {
            let mut i: usize = 0;
            while i < allowed.len()
                invariant
                    i <= allowed@.len(),
                    user_id == Some(id),
                    forall|j: int| 0 <= j < i ==> allowed@[j] != id,
                decreases allowed@.len() - i,
            {
                if allowed[i] == id {
                    return true;
                }
                i = i + 1;
            }
            false
        },
    }
}

/// Read the user IDs of a comma-separated list.
pub fn parse_allowed_users(list: &str) -> (ids: Vec<i64>)
    ensures
        ids@ == listed(list@),
{
    let chars = chars_of(list);
    let ghost s = list@;
    let mut ids: Vec<i64> = Vec::new();
    let mut start: usize = 0;
    let mut i: usize = 0;
    let ghost mut done: Seq<Seq<char>> = Seq::empty();
    assert(s.take(0) =~= Seq::<char>::empty());
    assert(words::split(s.take(0), ',') =~= done.push(s.subrange(0, 0)));
    while i < chars.len()
        invariant
            start <= i <= chars@.len(),
            chars@ == s,
            words::split(s.take(i as int), ',') == done.push(s.subrange(start as int, i as int)),
            ids@ == integers(done),
        decreases chars@.len() - i,
    {
        let ghost part = s.subrange(start as int, i as int);
        assert(s.take(i + 1).drop_last() =~= s.take(i as int));
        assert(done.push(part).drop_last() =~= done);
        if chars[i] == ',' {
            if let Some(id) = parse_integer(trim_range(&chars, start, i).as_str()) {
                ids.push(id);
            }
            proof {
                done = done.push(part);
            }
            start = i + 1;
            assert(s.subrange(start as int, i + 1) =~= Seq::<char>::empty());
        } else {
            assert(s.subrange(start as int, i + 1) =~= part.push(s[i as int]));
        }
        i = i + 1;
        assert(words::split(s.take(i as int), ',') =~= done.push(
            s.subrange(start as int, i as int),
        ));
    }
    let ghost part = s.subrange(start as int, i as int);
    assert(s.take(i as int) =~= s);
    assert(done.push(part).drop_last() =~= done);
    if let Some(id) = parse_integer(trim_range(&chars, start, i).as_str()) {
        ids.push(id);
    }
    ids
}

/// The list of `ids`, separated by commas.
pub open spec fn list_of(ids: Seq<i64>) -> Seq<char>
    decreases ids.len(),
{
    if ids.len() == 0 {
        Seq::empty()
    } else if ids.len() == 1 {
        digits::integer(ids[0] as int)
    } else {
        list_of(ids.drop_last()) + seq![','] + digits::integer(ids.last() as int)
    }
}

/// A part without commas behind a comma is a part of the list.
proof fn lemma_split_last(a: Seq<char>, b: Seq<char>)
    requires
        forall|i: int| 0 <= i < b.len() ==> b[i] != ',',
    ensures
        words::split(a + seq![','] + b, ',') == words::split(a, ',').push(b),
    decreases b.len(),
{
    let s = a + seq![','] + b;
    let front = words::split(a, ',');
    if b.len() == 0 {
        assert(s.drop_last() =~= a);
        assert(b =~= Seq::<char>::empty());
    } else {
        lemma_split_last(a, b.drop_last());
        assert(s.drop_last() =~= a + seq![','] + b.drop_last());
        assert(front.push(b.drop_last()).drop_last() =~= front);
        assert(b.drop_last().push(b.last()) =~= b);
    }
}

/// A text without commas is the only part.
proof fn lemma_split_alone(b: Seq<char>)
    requires
        forall|i: int| 0 <= i < b.len() ==> b[i] != ',',
    ensures
        words::split(b, ',') == seq![b],
    decreases b.len(),
{
    if b.len() == 0 {
        assert(b =~= Seq::<char>::empty());
    } else {
        lemma_split_alone(b.drop_last());
        assert(b.drop_last().push(b.last()) =~= b);
        assert(words::split(b, ',') =~= seq![b]);
    }
}

/// A list of user IDs, written with commas between them, reads back as these IDs.
pub proof fn list_reads_back(ids: Seq<i64>)
    ensures
        listed(list_of(ids)) == ids,
    decreases ids.len(),
{
    if ids.len() == 0 {
        let parts = words::split(list_of(ids), ',');
        assert(parts.last() =~= Seq::<char>::empty());
        assert(parts.drop_last() =~= Seq::empty());
        assert(integers(parts.drop_last()) =~= Seq::empty());
        assert(words::trimmed(parts.last()) =~= Seq::<char>::empty());
        assert(listed(list_of(ids)) =~= ids);
    } else {
        let last = digits::integer(ids.last() as int);
        digits::lemma_integer_chars(ids.last() as int);
        digits::lemma_integer_parses(ids.last());
        assert(words::trimmed(last) == last);
        let parts = words::split(list_of(ids), ',');
        if ids.len() == 1 {
            lemma_split_alone(last);
            assert(parts.drop_last() =~= Seq::empty());
            assert(integers(parts.drop_last()) =~= Seq::empty());
            assert(listed(list_of(ids)) =~= ids);
        } else {
            list_reads_back(ids.drop_last());
            lemma_split_last(list_of(ids.drop_last()), last);
            assert(parts.drop_last() =~= words::split(list_of(ids.drop_last()), ','));
            assert(ids.drop_last().push(ids.last()) =~= ids);
        }
    }
}

/// Of a list of user IDs, exactly the users on it are admitted, and nobody without an ID. The
/// empty list admits everybody.
pub proof fn list_admits_its_users(ids: Seq<i64>, user_id: Option<i64>)
    ensures
        admits(listed(list_of(ids)), user_id) == (ids.len() == 0 || (user_id matches Some(id)
            && ids.contains(id))),
{
    list_reads_back(ids);
}

/// A list is read part by part: what stands behind a comma is read on its own.
pub proof fn lists_are_read_part_by_part(a: Seq<char>, b: Seq<char>)
    requires
        forall|i: int| 0 <= i < b.len() ==> b[i] != ',',
    ensures
        listed(a + seq![','] + b) == listed(a) + listed(b),
{
    lemma_split_last(a, b);
    lemma_split_alone(b);
    let front = words::split(a, ',');
    assert(front.push(b).drop_last() =~= front);
    assert(seq![b].drop_last() =~= Seq::empty());
    assert(integers(seq![b].drop_last()) =~= Seq::empty());
    assert(listed(a + seq![','] + b) =~= listed(a) + listed(b));
}

/// A part is read without the blanks around it. It is one user ID where it is an integer, and
/// none elsewhere.
pub proof fn parts_are_read_without_blanks(front: Seq<char>, core: Seq<char>, back: Seq<char>)
    requires
        forall|i: int| 0 <= i < front.len() ==> blank(#[trigger] front[i]),
        forall|i: int| 0 <= i < back.len() ==> blank(#[trigger] back[i]),
        core.len() > 0 ==> !blank(core[0]) && !blank(core.last()),
        forall|i: int| 0 <= i < core.len() ==> core[i] != ',',
    ensures
        listed(front + core + back) == match digits::parsed(core) {
            Some(id) => seq![id],
            None => Seq::empty(),
        },
{
    let s = front + core + back;
    assert forall|i: int| 0 <= i < s.len() implies s[i] != ',' by {
        if i < front.len() {
            assert(blank(front[i]));
        } else if i < front.len() + core.len() {
            assert(s[i] == core[i - front.len()]);
        } else {
            assert(blank(back[i - front.len() - core.len()]));
        }
    }
    lemma_split_alone(s);
    assert(seq![s].drop_last() =~= Seq::empty());
    assert(integers(seq![s].drop_last()) =~= Seq::empty());
    lemma_trimmed(front, core, back);
    assert(seq![s].last() == s);
    assert(listed(s) =~= match digits::parsed(core) {
        Some(id) => seq![id],
        None => Seq::empty(),
    });
}

/// The characters with which Unicode parts words.
pub open spec fn blank(c: char) -> bool {
    c == ' ' || '\t' <= c <= '\r' || c == '\u{85}' || c == '\u{a0}' || c == '\u{1680}'
        || '\u{2000}' <= c <= '\u{200a}' || c == '\u{2028}' || c == '\u{2029}' || c == '\u{202f}'
        || c == '\u{205f}' || c == '\u{3000}'
}

/// Blanks around a text are dropped.
proof fn lemma_trimmed(front: Seq<char>, core: Seq<char>, back: Seq<char>)
    requires
        forall|i: int| 0 <= i < front.len() ==> blank(#[trigger] front[i]),
        forall|i: int| 0 <= i < back.len() ==> blank(#[trigger] back[i]),
        core.len() > 0 ==> !blank(core[0]) && !blank(core.last()),
    ensures
        words::trimmed(front + core + back) == core,
    decreases front.len() + back.len(),
{
    let s = front + core + back;
    if front.len() > 0 {
        assert(blank(front[0]));
        assert(s[0] == front[0]);
        assert(s.skip(1) =~= front.skip(1) + core + back);
        assert forall|i: int| 0 <= i < front.skip(1).len() implies blank(
            #[trigger] front.skip(1)[i],
        ) by {
            assert(blank(front[i + 1]));
        }
        lemma_trimmed(front.skip(1), core, back);
    } else if core.len() == 0 {
        assert(s =~= back);
        lemma_all_blank(back);
        assert(core =~= Seq::<char>::empty());
    } else {
        assert(s[0] == core[0]);
        assert(words::trim_start(s) == s);
        assert(s =~= core + back);
        lemma_trimmed_end(core, back);
    }
}

/// Nothing is left of blanks.
proof fn lemma_all_blank(s: Seq<char>)
    requires
        forall|i: int| 0 <= i < s.len() ==> blank(#[trigger] s[i]),
    ensures
        words::trim_start(s) == Seq::<char>::empty(),
    decreases s.len(),
{
    if s.len() > 0 {
        assert(blank(s[0]));
        assert forall|i: int| 0 <= i < s.skip(1).len() implies blank(#[trigger] s.skip(1)[i]) by {
            assert(blank(s[i + 1]));
        }
        lemma_all_blank(s.skip(1));
    } else {
        assert(s =~= Seq::<char>::empty());
    }
}

/// Blanks at the end are dropped.
proof fn lemma_trimmed_end(core: Seq<char>, back: Seq<char>)
    requires
        core.len() > 0,
        !blank(core.last()),
        forall|i: int| 0 <= i < back.len() ==> blank(#[trigger] back[i]),
    ensures
        words::trim_end(core + back) == core,
    decreases back.len(),
{
    let s = core + back;
    if back.len() == 0 {
        assert(s =~= core);
    } else {
        assert(blank(back[back.len() - 1]));
        assert(s.last() == back.last());
        assert(s.drop_last() =~= core + back.drop_last());
        assert forall|i: int| 0 <= i < back.drop_last().len() implies blank(
            #[trigger] back.drop_last()[i],
        ) by {
            assert(blank(back[i]));
        }
        lemma_trimmed_end(core, back.drop_last());
    }
}

} // verus!
