//! Small operations on text: splitting, decimal numbers, joining.
use vstd::prelude::*;

use crate::terms::ends_in;

verus! {

/// The texts that a sequence of strings holds.
pub open spec fn texts(v: Seq<String>) -> Seq<Seq<char>> {
    Seq::new(v.len(), |i: int| v[i]@)
}

/// The pieces of `s` between the separators; always one more than there are separators.
pub open spec fn split(s: Seq<char>, sep: char) -> Seq<Seq<char>>
    decreases s.len(),
{
    if s.len() == 0 {
        seq![Seq::<char>::empty()]
    } else {
        let init = split(s.drop_last(), sep);
        if s.last() == sep {
            init.push(Seq::empty())
        } else {
            init.drop_last().push(init.last().push(s.last()))
        }
    }
}

/// `s` ends in a pair of parentheses, as the label of a function does.
pub open spec fn ends_in_call(s: Seq<char>) -> bool {
    s.len() >= 2 && s[s.len() - 2] == '(' && s[s.len() - 1] == ')'
}

/// The decimal digits of `n`, without leading zeros.
pub open spec fn decimal(n: nat) -> Seq<char>
    decreases n,
{
    if n < 10 {
        seq![digit(n)]
    } else {
        decimal(n / 10).push(digit(n % 10))
    }
}

/// The digit that stands for a number below ten.
pub open spec fn digit(d: nat) -> char {
    "0123456789"@[d as int]
}

/// The parts one after another, with `sep` between neighbours.
pub open spec fn join(parts: Seq<Seq<char>>, sep: Seq<char>) -> Seq<char>
    decreases parts.len(),
{
    if parts.len() == 0 {
        Seq::empty()
    } else if parts.len() == 1 {
        parts[0]
    } else {
        join(parts.drop_last(), sep) + sep + parts.last()
    }
}

/// A text has at least one piece.
pub proof fn split_nonempty(s: Seq<char>, sep: char)
    ensures
        split(s, sep).len() > 0,
    decreases s.len(),
{
    if s.len() > 0 {
        split_nonempty(s.drop_last(), sep);
    }
}

/// Joining the pieces of a text with its separator gives the text back.
pub proof fn join_undoes_split(s: Seq<char>, sep: char)
    ensures
        join(split(s, sep), seq![sep]) == s,
    decreases s.len(),
{
    if s.len() == 0 {
        assert(join(split(s, sep), seq![sep]) =~= s);
    } else {
        let init = split(s.drop_last(), sep);
        join_undoes_split(s.drop_last(), sep);
        split_nonempty(s.drop_last(), sep);
        let all = split(s, sep);
        assert(s =~= s.drop_last().push(s.last()));
        if s.last() == sep {
            assert(all.drop_last() =~= init);
            assert(join(all, seq![sep]) =~= s.drop_last() + seq![sep] + Seq::empty());
            assert(join(all, seq![sep]) =~= s);
        } else if init.len() == 1 {
            assert(join(all, seq![sep]) =~= s);
        } else {
            assert(all.drop_last() =~= init.drop_last());
            assert(join(all, seq![sep]) =~= s);
        }
    }
}

/// Are the two texts the same?
pub fn same_text(a: &str, b: &str) -> (same: bool)
    ensures
        same == (a@ == b@),
{
    let left: String = a.to_owned();
    let right: String = b.to_owned();
    left.eq(&right)
}

/// The characters of a text.
fn chars_of(s: &str) -> (chars: Vec<char>)
    ensures
        chars@ == s@,
{
    let mut chars: Vec<char> = Vec::new();
    for c in it: s.chars()
        invariant
            it.seq() == s@,
            chars@ == it.seq().take(it.index() as int),
    {
        chars.push(c);
    }
    chars
}

/// The pieces of a path between its slashes.
pub fn split_path(path: &str) -> (pieces: Vec<String>)
    ensures
        texts(pieces@) == split(path@, '/'),
{
    let chars: Vec<char> = chars_of(path);
    let mut pieces: Vec<String> = Vec::new();
    let mut start: usize = 0;
    let mut i: usize = 0;
    assert(path@.subrange(0, 0) =~= Seq::empty());
    assert(texts(pieces@).push(path@.subrange(0, 0)) =~= split(path@.take(0), '/'));
    while i < chars.len()
        invariant
            chars@ == path@,
            start <= i <= chars@.len(),
            texts(pieces@).push(path@.subrange(start as int, i as int)) == split(path@.take(i as int), '/'),
        decreases chars@.len() - i,
    {
        let ghost init = texts(pieces@).push(path@.subrange(start as int, i as int));
        assert(path@.take(i + 1).drop_last() =~= path@.take(i as int));
        if chars[i] == '/' {
            let piece: String = path.substring_char(start, i).to_owned();
            pieces.push(piece);
            start = i + 1;
            assert(texts(pieces@) =~= init);
            assert(path@.subrange(start as int, i + 1) =~= Seq::empty());
        } else {
            assert(init.drop_last() =~= texts(pieces@));
            assert(path@.subrange(start as int, i as int).push(path@[i as int]) =~= path@.subrange(start as int, i + 1));
        }
        i += 1;
    }
    assert(path@.take(i as int) =~= path@);
    let ghost init = texts(pieces@);
    let piece: String = path.substring_char(start, i).to_owned();
    pieces.push(piece);
    assert(texts(pieces@) =~= init.push(path@.subrange(start as int, i as int)));
    pieces
}

/// Does the label end in a pair of parentheses?
pub fn is_call_label(label: &str) -> (call: bool)
    ensures
        call == ends_in_call(label@),
{
    let chars: Vec<char> = chars_of(label);
    chars.len() >= 2 && chars[chars.len() - 2] == '(' && chars[chars.len() - 1] == ')'
}

/// Is `c` the first character of the text?
pub fn begins_with(s: &str, c: char) -> (begins: bool)
    ensures
        begins == (s@.len() > 0 && s@[0] == c),
{
    let chars: Vec<char> = chars_of(s);
    chars.len() > 0 && chars[0] == c
}

/// Does the text hold the character `c`?
pub fn has_char(s: &str, c: char) -> (has: bool)
    ensures
        has == s@.contains(c),
{
    let chars: Vec<char> = chars_of(s);
    let mut i: usize = 0;
    while i < chars.len()
        invariant
            chars@ == s@,
            i <= chars@.len(),
            forall|k: int| 0 <= k < i ==> #[trigger] chars@[k] != c,
        decreases chars@.len() - i,
    {
        if chars[i] == c {
            return true;
        }
        i += 1;
    }
    false
}

/// The digit for a number below ten.
fn digit_text(d: u128) -> (s: &'static str)
    requires
        d < 10,
    ensures
        s@ == seq![digit(d as nat)],
{
    proof {
        reveal_strlit("0123456789");
    }
    let at: usize = d as usize;
    let s: &'static str = "0123456789".substring_char(at, at + 1);
    assert(s@ =~= seq![digit(d as nat)]);
    s
}

/// The number written in decimal.
pub fn decimal_text(n: u128) -> (s: String)
    ensures
        s@ == decimal(n as nat),
    decreases n,
{
    if n < 10 {
        digit_text(n).to_owned()
    } else {
        let mut s: String = decimal_text(n / 10);
        let last: &str = digit_text(n % 10);
        let ghost front = s@;
        s.append(last);
        assert(s@ =~= front.push(digit((n % 10) as nat)));
        s
    }
}

/// The strings one after another, with `sep` between neighbours.
pub fn join_text(parts: &Vec<String>, sep: &str) -> (s: String)
    ensures
        s@ == join(texts(parts@), sep@),
{
    let mut s: String = String::new();
    let mut i: usize = 0;
    assert(texts(parts@).take(0) =~= Seq::empty());
    while i < parts.len()
        invariant
            i <= parts@.len(),
            s@ == join(texts(parts@).take(i as int), sep@),
        decreases parts@.len() - i,
    {
        let ghost next = texts(parts@).take(i + 1);
        assert(next.drop_last() =~= texts(parts@).take(i as int));
        if i > 0 {
            s.append(sep);
        }
        s.append(parts[i].as_str());
        i += 1;
        proof {
            if i == 1 {
                assert(s@ =~= next[0]);
            }
        }
    }
    assert(texts(parts@).take(i as int) =~= texts(parts@));
    s
}

/// A text ends in a call exactly if it is some text with `()` behind it.
pub proof fn calls_end_in_parentheses(s: Seq<char>)
    ensures
        ends_in_call(s) <==> ends_in(s, "()"@),
{
    reveal_strlit("()");
    assert("()"@ =~= seq!['(', ')']);
    if ends_in_call(s) {
        let front = s.take(s.len() - 2);
        assert(s =~= front + "()"@);
    }
    if ends_in(s, "()"@) {
        let front = choose|front: Seq<char>| s == #[trigger] (front + "()"@);
        assert(s.len() == front.len() + 2);
    }
}

/// Joining one part more puts the separator and the part behind; a single part is itself, and no
/// part is nothing.
pub proof fn join_one_more(parts: Seq<Seq<char>>, part: Seq<char>, sep: Seq<char>)
    ensures
        join(Seq::empty(), sep) == Seq::<char>::empty(),
        join(seq![part], sep) == part,
        parts.len() > 0 ==> join(parts.push(part), sep) == join(parts, sep) + sep + part,
{
    if parts.len() > 0 {
        assert(parts.push(part).drop_last() =~= parts);
    }
}

/// No piece of a text holds the separator.
pub proof fn pieces_hold_no_separator(s: Seq<char>, sep: char)
    ensures
        forall|i: int| 0 <= i < split(s, sep).len() ==> !(#[trigger] split(s, sep)[i]).contains(sep),
    decreases s.len(),
{
    if s.len() > 0 {
        let init = split(s.drop_last(), sep);
        pieces_hold_no_separator(s.drop_last(), sep);
        split_nonempty(s.drop_last(), sep);
        let all = split(s, sep);
        assert forall|i: int| 0 <= i < all.len() implies !(#[trigger] all[i]).contains(sep) by {
            if s.last() != sep && i == init.len() - 1 {
                assert(!init[i].contains(sep));
                crate::sequences::pushed_contains(init[i], s.last(), sep);
                assert(all[i] == init[i].push(s.last()));
            } else if i < init.len() {
                assert(all[i] == init[i]);
                assert(!init[i].contains(sep));
            }
        }
    }
}

/// Splitting what was joined from parts without the separator gives the parts back.
pub proof fn split_undoes_join(parts: Seq<Seq<char>>, sep: char)
    requires
        parts.len() > 0,
        forall|i: int| 0 <= i < parts.len() ==> !(#[trigger] parts[i]).contains(sep),
    ensures
        split(join(parts, seq![sep]), sep) == parts,
    decreases parts.len(),
{
    let last = parts.last();
    let front = parts.drop_last();
    assert(!parts[parts.len() - 1].contains(sep));
    if parts.len() == 1 {
        split_on(Seq::empty(), last, sep);
        assert(Seq::<char>::empty() + last =~= last);
        assert(seq![Seq::<char>::empty()].drop_last().push(Seq::<char>::empty() + last) =~= parts);
    } else {
        assert forall|i: int| 0 <= i < front.len() implies !(#[trigger] front[i]).contains(sep) by {
            assert(!parts[i].contains(sep));
        }
        split_undoes_join(front, sep);
        let begun = join(front, seq![sep]) + seq![sep];
        assert(begun.drop_last() =~= join(front, seq![sep]));
        assert(split(begun, sep) == front.push(Seq::empty()));
        split_on(begun, last, sep);
        assert(front.push(Seq::empty()).drop_last().push(Seq::<char>::empty() + last) =~= parts);
    }
}

/// Text without the separator goes on with the last piece.
proof fn split_on(s: Seq<char>, more: Seq<char>, sep: char)
    requires
        !more.contains(sep),
    ensures
        split(s + more, sep) == split(s, sep).drop_last().push(split(s, sep).last() + more),
    decreases more.len(),
{
    split_nonempty(s, sep);
    if more.len() == 0 {
        assert(s + more =~= s);
        assert(split(s, sep).last() + more =~= split(s, sep).last());
        assert(split(s, sep) =~= split(s, sep).drop_last().push(split(s, sep).last()));
    } else {
        let front = more.drop_last();
        assert forall|c: char| front.contains(c) implies more.contains(c) by {
            let i = choose|i: int| 0 <= i < front.len() && front[i] == c;
            assert(more[i] == c);
        }
        split_on(s, front, sep);
        assert((s + more).drop_last() =~= s + front);
        assert(more.contains(more[more.len() - 1]));
        let before = split(s + front, sep);
        assert(before.drop_last() =~= split(s, sep).drop_last());
        assert((split(s, sep).last() + front).push(more.last()) =~= split(s, sep).last() + more);
    }
}

/// The number that decimal digits stand for.
pub open spec fn number_of(s: Seq<char>) -> int
    decreases s.len(),
{
    if s.len() == 0 {
        0
    } else {
        10 * number_of(s.drop_last()) + (s.last() as int - '0' as int)
    }
}

/// The decimal text of a number stands for the number, is made of digits, and has no zero in
/// front unless it is the only digit.
pub proof fn decimals_stand_for_numbers(n: nat)
    ensures
        number_of(decimal(n)) == n,
        decimal(n).len() > 0,
        forall|i: int| 0 <= i < decimal(n).len() ==> '0' as int <= (#[trigger] decimal(n)[i]) as int <= '9' as int,
        decimal(n).len() > 1 ==> decimal(n)[0] != '0',
    decreases n,
{
    reveal_strlit("0123456789");
    if n < 10 {
        let s = decimal(n);
        assert(s.drop_last() =~= Seq::empty());
        assert(number_of(s.drop_last()) == 0);
    } else {
        decimals_stand_for_numbers(n / 10);
        let s = decimal(n);
        assert(s.drop_last() =~= decimal(n / 10));
        assert(n / 10 > 0);
        if decimal(n / 10).len() == 1 {
            let t = decimal(n / 10);
            assert(t.drop_last() =~= Seq::empty());
            assert(number_of(t.drop_last()) == 0);
            assert(number_of(t) == t[0] as int - '0' as int);
        }
    }
}

/// Strings hold their texts, one by one.
pub proof fn texts_of_strings(v: Seq<String>)
    ensures
        texts(v).len() == v.len(),
        forall|i: int| 0 <= i < v.len() ==> #[trigger] texts(v)[i] == v[i]@,
{
}

} // verus!
