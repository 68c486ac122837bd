//! Characters in and out of strings, and the order in which strings sort.

use vstd::prelude::*;
use vstd::std_specs::iter::IteratorSpec;
use vstd::string::*;

verus! {

/// `String::push` of the standard library: the string afterwards is the string
/// before with `c` appended as its last character.
pub assume_specification[ String::push ](s: &mut String, c: char)
    ensures
        final(s)@ == old(s)@.push(c),
;

/// The characters of `text`, in order.
pub fn chars_of(text: &str) -> (chars: Vec<char>)
    ensures
        chars@ == text@,
{
    let mut chars: Vec<char> = Vec::new();
    for c in it: text.chars()
        invariant
            chars@ == it.seq().take(it.index()),
    {
        chars.push(c);
    }
    chars
}

/// The string made of `chars[from..to]`.
pub fn string_of(chars: &[char], from: usize, to: usize) -> (s: String)
    requires
        from <= to <= chars.len(),
    ensures
        s@ == chars@.subrange(from as int, to as int),
{
    let mut s = String::new();
    let mut i: usize = from;
    while i < to
        invariant
            from <= i <= to <= chars.len(),
            s@ == chars@.subrange(from as int, i as int),
        decreases to - i,
    {
        s.push(chars[i]);
        i += 1;
        assert(chars@.subrange(from as int, i as int) == chars@.subrange(
            from as int,
            i - 1,
        ).push(chars@[i - 1]));
    }
    s
}

/// Whether `chars[from..to]` spells `word`.
pub fn span_is(chars: &[char], from: usize, to: usize, word: &str) -> (same: bool)
    requires
        from <= to <= chars.len(),
    ensures
        same == (chars@.subrange(from as int, to as int) == word@),
{
    let ghost span = chars@.subrange(from as int, to as int);
    let mut i: usize = from;
    for c in it: word.chars()
        invariant
            from <= i <= to <= chars.len(),
            i - from == it.index(),
            it.seq() == word@,
            span == chars@.subrange(from as int, to as int),
            span.take(it.index()) == word@.take(it.index()),
    {
        if i >= to || chars[i] != c {
            assert(span != word@) by {
                if span == word@ {
                    assert(span[i - from] == c);
                }
            }
            return false;
        }
        i += 1;
        assert(span.take(i - from) == span.take(i - from - 1).push(span[i - from - 1]));
        assert(word@.take(i - from) == word@.take(i - from - 1).push(word@[i - from - 1]));
    }
    assert(word@.take(word@.len() as int) == word@);
    if i == to {
        assert(span.take(span.len() as int) == span);
        true
    } else {
        false
    }
}

/// Strict lexicographic order on strings, character by character by code
/// point: a proper prefix comes before the string that extends it.
pub open spec fn precedes(a: Seq<char>, b: Seq<char>) -> bool
    decreases a.len(),
{
    if b.len() == 0 {
        false
    } else if a.len() == 0 {
        true
    } else if a[0] != b[0] {
        a[0] < b[0]
    } else {
        precedes(a.drop_first(), b.drop_first())
    }
}

/// No string sorts before itself.
pub proof fn lemma_precedes_irreflexive(a: Seq<char>)
    ensures
        !precedes(a, a),
    decreases a.len(),
{
    if a.len() > 0 {
        lemma_precedes_irreflexive(a.drop_first());
    }
}

/// Of two different strings exactly one sorts before the other.
pub proof fn lemma_precedes_total(a: Seq<char>, b: Seq<char>)
    ensures
        a != b ==> (precedes(a, b) <==> !precedes(b, a)),
        a == b ==> !precedes(a, b) && !precedes(b, a),
    decreases a.len(),
{
    if a == b {
        lemma_precedes_irreflexive(a);
    } else if a.len() > 0 && b.len() > 0 && a[0] == b[0] {
        assert(a.drop_first() != b.drop_first()) by {
            if a.drop_first() == b.drop_first() {
                assert(a == seq![a[0]] + a.drop_first());
                assert(b == seq![b[0]] + b.drop_first());
            }
        }
        lemma_precedes_total(a.drop_first(), b.drop_first());
    } else if a.len() == 0 {
        assert(b.len() > 0) by {
            if b.len() == 0 {
                assert(a == b);
            }
        }
    }
}

/// The order is transitive.
pub proof fn lemma_precedes_transitive(a: Seq<char>, b: Seq<char>, c: Seq<char>)
    requires
        precedes(a, b),
        precedes(b, c),
    ensures
        precedes(a, c),
    decreases a.len(),
{
    if a.len() > 0 && a[0] == b[0] && b[0] == c[0] {
        lemma_precedes_transitive(a.drop_first(), b.drop_first(), c.drop_first());
    }
}

/// Whether `a` sorts strictly before `b`.
pub fn str_precedes(a: &str, b: &str) -> (before: bool)
    ensures
        before == precedes(a@, b@),
{
    let mut xs = a.chars();
    let mut ys = b.chars();
    let ghost mut done: int = 0;
    loop
        invariant
            0 <= done <= a@.len(),
            done <= b@.len(),
            xs.remaining() == a@.skip(done),
            ys.remaining() == b@.skip(done),
            precedes(a@, b@) == precedes(a@.skip(done), b@.skip(done)),
        decreases a@.len() - done,
    {
        let x = xs.next();
        let y = ys.next();
        match (x, y) {
            (_, None) => {
                return false;
            },
            (None, Some(_)) => {
                return true;
            },
            (Some(c), Some(d)) => {
                if c != d {
                    return c < d;
                }
                proof {
                    assert(a@.skip(done).drop_first() == a@.skip(done + 1));
                    assert(b@.skip(done).drop_first() == b@.skip(done + 1));
                    done = done + 1;
                }
            },
        }
    }
}

} // verus!
