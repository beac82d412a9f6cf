use vstd::prelude::*;

verus! {

broadcast use vstd::string::group_string_axioms;

/// Appends every character of `s` to `out`.
pub fn push_str(out: &mut Vec<char>, s: &str)
    ensures
        final(out)@ == old(out)@ + s@,
{
    let ghost start = out@;
    for c in it: s.chars()
        invariant
            out@ == start + it.seq().take(it.index() as int),
            it.seq() == s@,
    {
        out.push(c);
        assert(it.seq().take(it.index() + 1) == it.seq().take(it.index() as int).push(c));
    }
    assert(s@.take(s@.len() as int) == s@);
}

} // verus!

verus! {

/// The decimal digit for `d`, which is below ten.
pub open spec fn digit_char(d: nat) -> char {
    if d == 0 {
        '0'
    } else if d == 1 {
        '1'
    } else if d == 2 {
        '2'
    } else if d == 3 {
        '3'
    } else if d == 4 {
        '4'
    } else if d == 5 {
        '5'
    } else if d == 6 {
        '6'
    } else if d == 7 {
        '7'
    } else if d == 8 {
        '8'
    } else {
        '9'
    }
}

/// The decimal numeral of `n`, without leading zeros.
pub open spec fn decimal(n: nat) -> Seq<char>
    decreases n,
{
    if n < 10 {
        seq![digit_char(n)]
    } else {
        decimal(n / 10).push(digit_char(n % 10))
    }
}

/// `n` copies of the character `c`.
pub open spec fn repeated(c: char, n: nat) -> Seq<char> {
    Seq::new(n, |i: int| c)
}

fn digit(d: usize) -> (c: char)
    requires
        d < 10,
    ensures
        c == digit_char(d as nat),
{
    if d == 0 {
        '0'
    } else if d == 1 {
        '1'
    } else if d == 2 {
        '2'
    } else if d == 3 {
        '3'
    } else if d == 4 {
        '4'
    } else if d == 5 {
        '5'
    } else if d == 6 {
        '6'
    } else if d == 7 {
        '7'
    } else if d == 8 {
        '8'
    } else {
        '9'
    }
}

/// Appends the decimal numeral of `n`.
pub fn push_decimal(out: &mut Vec<char>, n: usize)
    ensures
        final(out)@ == old(out)@ + decimal(n as nat),
    decreases n,
{
    if n < 10 {
        out.push(digit(n));
        assert(decimal(n as nat) == seq![digit_char(n as nat)]);
    } else {
        push_decimal(out, n / 10);
        out.push(digit(n % 10));
    }
}

/// Appends `count` copies of `c`.
pub fn push_repeated(out: &mut Vec<char>, c: char, count: usize)
    ensures
        final(out)@ == old(out)@ + repeated(c, count as nat),
{
    let ghost start = out@;
    let mut index: usize = 0;
    while index < count
        invariant
            index <= count,
            out@ == start + repeated(c, index as nat),
        decreases count - index,
    {
        out.push(c);
        index = index + 1;
        assert(repeated(c, index as nat) == repeated(c, (index - 1) as nat).push(c));
    }
}

/// Appends every character of `chars`.
pub fn push_chars(out: &mut Vec<char>, chars: &Vec<char>)
    ensures
        final(out)@ == old(out)@ + chars@,
{
    let ghost start = out@;
    let mut index: usize = 0;
    while index < chars.len()
        invariant
            index <= chars.len(),
            out@ == start + chars@.take(index as int),
        decreases chars.len() - index,
    {
        out.push(chars[index]);
        index = index + 1;
        assert(chars@.take(index as int) == chars@.take(index - 1).push(chars@[index - 1]));
    }
    assert(chars@.take(chars.len() as int) == chars@);
}

/// Collects characters into a `String`.
#[verifier::external_body]
pub fn string_from_chars(chars: &Vec<char>) -> (text: String)
    ensures
        text@ == chars@,
{
    chars.iter().collect()
}


/// `part` occurs in `text` starting at `at`.
pub open spec fn occurs_at(text: Seq<char>, part: Seq<char>, at: int) -> bool {
    0 <= at && at + part.len() <= text.len() && text.subrange(at, at + part.len()) == part
}

/// `part` occurs somewhere in `text`.
pub open spec fn contains_part(text: Seq<char>, part: Seq<char>) -> bool {
    exists|at: int| occurs_at(text, part, at)
}

/// Whether `part` occurs in `text`.
pub fn text_contains(text: &Vec<char>, part: &Vec<char>) -> (found: bool)
    ensures
        found == contains_part(text@, part@),
{
    if part.len() > text.len() {
        assert forall|at: int| !occurs_at(text@, part@, at) by {}
        return false;
    }
    let length = text.len();
    let last = length - part.len();
    let mut at: usize = 0;
    while at <= last
        invariant
            part@.len() <= text@.len(),
            text@.len() == length,
            last == text@.len() - part@.len(),
            at <= last + 1,
            forall|a: int| 0 <= a < at ==> !occurs_at(text@, part@, a),
        decreases last + 1 - at,
    {
        let mut j: usize = 0;
        let mut same = true;
        while j < part.len()
            invariant
                part@.len() <= text@.len(),
                text@.len() == length,
                last == text@.len() - part@.len(),
                at <= last,
                j <= part@.len(),
                same ==> forall|jj: int| 0 <= jj < j ==> text@[at + jj] == part@[jj],
                !same ==> !occurs_at(text@, part@, at as int),
            decreases part@.len() - j,
        {
            if same && text[at + j] != part[j] {
                same = false;
                assert(text@.subrange(at as int, at + part@.len())[j as int] != part@[j as int]);
            }
            j = j + 1;
        }
        if same {
            assert(text@.subrange(at as int, at + part@.len()) =~= part@);
            assert(occurs_at(text@, part@, at as int));
            return true;
        }
        if at == last {
            assert forall|a: int| !occurs_at(text@, part@, a) by {
                if 0 <= a <= at {
                }
            }
            return false;
        }
        at = at + 1;
    }
    assert forall|a: int| !occurs_at(text@, part@, a) by {
        if 0 <= a < at {
        }
    }
    false
}

/// The characters `chars[start..end]`.
pub fn chars_between(chars: &Vec<char>, start: usize, end: usize) -> (part: Vec<char>)
    requires
        start <= end <= chars@.len(),
    ensures
        part@ == chars@.subrange(start as int, end as int),
{
    let mut part: Vec<char> = Vec::new();
    let mut index = start;
    while index < end
        invariant
            start <= index <= end <= chars@.len(),
            part@ == chars@.subrange(start as int, index as int),
        decreases end - index,
    {
        part.push(chars[index]);
        index = index + 1;
        assert(part@ =~= chars@.subrange(start as int, index as int));
    }
    part
}

/// `a` comes strictly before `b` in the order of their characters' code points, a proper prefix
/// first (the order of `String`s).
pub open spec fn text_less(a: Seq<char>, b: Seq<char>) -> bool
    decreases a.len(),
{
    if a.len() == 0 {
        b.len() > 0
    } else if b.len() == 0 {
        false
    } else if a[0] != b[0] {
        (a[0] as int) < (b[0] as int)
    } else {
        text_less(a.drop_first(), b.drop_first())
    }
}

/// No text comes before itself.
pub proof fn lemma_text_less_irreflexive(a: Seq<char>)
    ensures
        !text_less(a, a),
    decreases a.len(),
{
    if a.len() > 0 {
        lemma_text_less_irreflexive(a.drop_first());
    }
}

/// The order of texts is transitive.
pub proof fn lemma_text_less_transitive(a: Seq<char>, b: Seq<char>, c: Seq<char>)
    requires
        text_less(a, b),
        text_less(b, c),
    ensures
        text_less(a, c),
    decreases a.len(),
{
    if a.len() > 0 && b.len() > 0 && c.len() > 0 && a[0] == b[0] && b[0] == c[0] {
        lemma_text_less_transitive(a.drop_first(), b.drop_first(), c.drop_first());
    }
}

/// Of two different texts, one comes before the other.
pub proof fn lemma_text_less_total(a: Seq<char>, b: Seq<char>)
    requires
        a != b,
    ensures
        text_less(a, b) || text_less(b, a),
    decreases a.len(),
{
    if a.len() > 0 && b.len() > 0 {
        if a[0] == b[0] {
            if a.drop_first() == b.drop_first() {
                assert(a =~= seq![a[0]] + a.drop_first());
                assert(b =~= seq![b[0]] + b.drop_first());
            }
            lemma_text_less_total(a.drop_first(), b.drop_first());
        } else {
            assert((a[0] as int) != (b[0] as int));
        }
    } else if a.len() == 0 && b.len() == 0 {
        assert(a =~= b);
    }
}

/// Whether `a` comes strictly before `b`.
pub fn text_before(a: &Vec<char>, b: &Vec<char>) -> (before: bool)
    ensures
        before == text_less(a@, b@),
{
    let mut index: usize = 0;
    assert(a@.subrange(0, a@.len() as int) =~= a@);
    assert(b@.subrange(0, b@.len() as int) =~= b@);
    while index < a.len() && index < b.len()
        invariant
            index <= a@.len(),
            index <= b@.len(),
            text_less(a@, b@) == text_less(
                a@.subrange(index as int, a@.len() as int),
                b@.subrange(index as int, b@.len() as int),
            ),
        decreases a@.len() - index,
    {
        let ghost rest_a = a@.subrange(index as int, a@.len() as int);
        let ghost rest_b = b@.subrange(index as int, b@.len() as int);
        assert(rest_a[0] == a@[index as int]);
        assert(rest_b[0] == b@[index as int]);
        if a[index] != b[index] {
            return a[index] < b[index];
        }
        assert(rest_a.drop_first() =~= a@.subrange(index + 1, a@.len() as int));
        assert(rest_b.drop_first() =~= b@.subrange(index + 1, b@.len() as int));
        index = index + 1;
    }
    a.len() == index && b.len() > index
}

/// `texts` is in strictly increasing order.
pub open spec fn strictly_sorted(texts: Seq<Vec<char>>) -> bool {
    forall|i: int, j: int| 0 <= i < j < texts.len() ==> text_less(texts[i]@, texts[j]@)
}

/// Some element of `texts` has the characters `t`.
pub open spec fn holds_text(texts: Seq<Vec<char>>, t: Seq<char>) -> bool {
    exists|i: int| 0 <= i < texts.len() && #[trigger] texts[i]@ == t
}

/// Adds `text` to the strictly sorted `texts` unless it is already there.
pub fn insert_sorted(texts: &mut Vec<Vec<char>>, text: Vec<char>)
    requires
        strictly_sorted(old(texts)@),
    ensures
        strictly_sorted(final(texts)@),
        forall|t: Seq<char>|
            #[trigger] holds_text(final(texts)@, t) <==> (t == text@ || holds_text(old(texts)@, t)),
{
    let ghost before = texts@;
    let mut index: usize = 0;
    while index < texts.len() && text_before(&texts[index], &text)
        invariant
            index <= texts@.len(),
            texts@ == before,
            strictly_sorted(before),
            forall|k: int| 0 <= k < index ==> text_less(#[trigger] before[k]@, text@),
        decreases texts@.len() - index,
    {
        index = index + 1;
    }
    if index < texts.len() && !text_before(&text, &texts[index]) {
        proof {
            if texts@[index as int]@ != text@ {
                lemma_text_less_total(texts@[index as int]@, text@);
            }
            assert forall|t: Seq<char>|
                #[trigger] holds_text(texts@, t) <==> (t == text@ || holds_text(before, t)) by {
                if t == text@ {
                    assert(texts@[index as int]@ == t);
                }
            }
        }
        return;
    }
    proof {
        assert forall|k: int| index <= k < before.len() implies text_less(text@, #[trigger] before[k]@) by {
            lemma_text_less_total(before[index as int]@, text@);
            if k > index {
                lemma_text_less_transitive(text@, before[index as int]@, before[k]@);
            }
        }
    }
    texts.insert(index, text);
    proof {
        let after = texts@;
        assert forall|i: int, j: int| 0 <= i < j < after.len() implies text_less(after[i]@, after[j]@) by {
            if j == index {
            } else if i == index {
            } else if i < index && j > index {
                assert(after[j] == before[j - 1]);
                lemma_text_less_transitive(after[i]@, text@, after[j]@);
            } else if j < index {
            } else {
                assert(after[i] == before[i - 1]);
                assert(after[j] == before[j - 1]);
            }
        }
        assert forall|t: Seq<char>|
            #[trigger] holds_text(after, t) <==> (t == text@ || holds_text(before, t)) by {
            if holds_text(after, t) {
                let i = choose|i: int| 0 <= i < after.len() && #[trigger] after[i]@ == t;
                if i < index {
                    assert(before[i]@ == t);
                } else if i > index {
                    assert(before[i - 1]@ == t);
                }
            }
            if t == text@ {
                assert(after[index as int]@ == t);
            } else if holds_text(before, t) {
                let i = choose|i: int| 0 <= i < before.len() && #[trigger] before[i]@ == t;
                if i < index {
                    assert(after[i]@ == t);
                } else {
                    assert(after[i + 1]@ == t);
                }
            }
        }
    }
}

} // verus!

verus! {

/// How many bytes UTF-8 takes for `c`.
pub open spec fn char_width(c: char) -> nat {
    if (c as u32) < 0x80 {
        1
    } else if (c as u32) < 0x800 {
        2
    } else if (c as u32) < 0x10000 {
        3
    } else {
        4
    }
}

/// How many bytes UTF-8 takes for `text`.
pub open spec fn utf8_len(text: Seq<char>) -> nat
    decreases text.len(),
{
    if text.len() == 0 {
        0
    } else {
        utf8_len(text.drop_last()) + char_width(text.last())
    }
}

/// The UTF-8 length of two texts written one after the other is the sum of their lengths.
pub proof fn lemma_utf8_len_append(first: Seq<char>, second: Seq<char>)
    ensures
        utf8_len(first + second) == utf8_len(first) + utf8_len(second),
    decreases second.len(),
{
    if second.len() == 0 {
        assert(first + second =~= first);
    } else {
        lemma_utf8_len_append(first, second.drop_last());
        assert((first + second).drop_last() =~= first + second.drop_last());
        assert((first + second).last() == second.last());
    }
}

/// How many bytes UTF-8 takes for `c`.
pub fn utf8_width(c: char) -> (width: usize)
    ensures
        width == char_width(c),
{
    let code = c as u32;
    if code < 0x80 {
        1
    } else if code < 0x800 {
        2
    } else if code < 0x10000 {
        3
    } else {
        4
    }
}

/// The byte count after `used` bytes followed by `text` in UTF-8, when it is at most `limit`.
pub fn bytes_within(used: usize, text: &Vec<char>, limit: usize) -> (total: Option<usize>)
    requires
        used <= limit,
        limit <= usize::MAX - 4,
    ensures
        total is Some <==> used + utf8_len(text@) <= limit,
        total matches Some(t) ==> t == used + utf8_len(text@),
{
    let mut total: usize = used;
    let mut index: usize = 0;
    while index < text.len()
        invariant
            index <= text@.len(),
            used <= limit <= usize::MAX - 4,
            total == used + utf8_len(text@.take(index as int)),
            total <= limit,
        decreases text@.len() - index,
    {
        proof {
            assert(text@.take(index + 1).drop_last() =~= text@.take(index as int));
        }
        total = total + utf8_width(text[index]);
        index = index + 1;
        if total > limit {
            proof {
                lemma_utf8_len_append(text@.take(index as int), text@.skip(index as int));
                assert(text@.take(index as int) + text@.skip(index as int) =~= text@);
            }
            return None;
        }
    }
    proof {
        assert(text@.take(index as int) =~= text@);
    }
    Some(total)
}

} // verus!
