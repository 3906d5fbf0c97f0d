//! Text as sequences of characters: splitting, joining, ordering, numbers.

use vstd::prelude::*;
use vstd::relations::{sorted_by, total_ordering};
use vstd::seq_lib::{group_to_multiset_ensures, lemma_sorted_unique};

verus! {

/// The views of a list of texts.
pub open spec fn texts(v: Seq<Vec<char>>) -> Seq<Seq<char>> {
    Seq::new(v.len(), |i: int| v[i]@)
}

/// The pieces of `s` between occurrences of `sep`; one more piece than there are separators.
pub open spec fn split_text(s: Seq<char>, sep: char) -> Seq<Seq<char>>
    decreases s.len(),
{
    if s.len() == 0 {
        seq![Seq::empty()]
    } else {
        let head = split_text(s.drop_last(), sep);
        if s.last() == sep {
            head.push(Seq::empty())
        } else {
            head.update(head.len() - 1, head.last().push(s.last()))
        }
    }
}

/// The pieces put together again with `sep` between each two.
pub open spec fn join_text(parts: Seq<Seq<char>>, sep: char) -> Seq<char>
    decreases parts.len(),
{
    if parts.len() == 0 {
        Seq::empty()
    } else if parts.len() == 1 {
        parts[0]
    } else {
        join_text(parts.drop_last(), sep).push(sep) + parts.last()
    }
}

/// Lexicographic order of texts by code point; a prefix comes first.
pub open spec fn text_le(a: Seq<char>, b: Seq<char>) -> bool
    decreases a.len(),
{
    if a.len() == 0 {
        true
    } else if b.len() == 0 {
        false
    } else if a[0] != b[0] {
        (a[0] as int) < (b[0] as int)
    } else {
        text_le(a.skip(1), b.skip(1))
    }
}

/// No text comes before an earlier one.
pub open spec fn sorted_texts(t: Seq<Seq<char>>) -> bool {
    forall|i: int, j: int| 0 <= i < j < t.len() ==> text_le(t[i], t[j])
}

/// The decimal digit for a number below ten.
pub open spec fn digit(d: nat) -> char {
    ((48 + d) as u8) as char
}

/// A number in decimal, without leading zeros.
pub open spec fn decimal(n: nat) -> Seq<char>
    decreases n,
{
    if n < 10 {
        seq![digit(n)]
    } else {
        decimal(n / 10).push(digit(n % 10))
    }
}

/// A sorted list with one more text, put behind the last text that does
/// not come after it.
pub open spec fn insert_text(t: Seq<Seq<char>>, x: Seq<char>) -> Seq<Seq<char>>
    decreases t.len(),
{
    if t.len() == 0 || text_le(t.last(), x) {
        t.push(x)
    } else {
        insert_text(t.drop_last(), x).push(t.last())
    }
}

/// The texts in lexicographic order; equal texts keep their order.
pub open spec fn sorted(t: Seq<Seq<char>>) -> Seq<Seq<char>>
    decreases t.len(),
{
    if t.len() == 0 {
        t
    } else {
        insert_text(sorted(t.drop_last()), t.last())
    }
}

/// What `str::to_lowercase` makes of a text.
pub uninterp spec fn lowercased(s: Seq<char>) -> Seq<char>;

/// Whether `char::is_whitespace` holds of a character.
pub uninterp spec fn whitespace(c: char) -> bool;

/// Without the whitespace at its end.
pub open spec fn trim_end_text(s: Seq<char>) -> Seq<char>
    decreases s.len(),
{
    if s.len() > 0 && whitespace(s.last()) {
        trim_end_text(s.drop_last())
    } else {
        s
    }
}

/// Without the whitespace at its start.
pub open spec fn trim_start_text(s: Seq<char>) -> Seq<char>
    decreases s.len(),
{
    if s.len() > 0 && whitespace(s[0]) {
        trim_start_text(s.skip(1))
    } else {
        s
    }
}

/// Without the whitespace at its start and at its end.
pub open spec fn trimmed(s: Seq<char>) -> Seq<char> {
    trim_start_text(trim_end_text(s))
}

/// The pieces of `s` between whitespace characters, each of which separates two pieces.
pub open spec fn split_white(s: Seq<char>) -> Seq<Seq<char>>
    decreases s.len(),
{
    if s.len() == 0 {
        seq![Seq::empty()]
    } else {
        let head = split_white(s.drop_last());
        if whitespace(s.last()) {
            head.push(Seq::empty())
        } else {
            head.update(head.len() - 1, head.last().push(s.last()))
        }
    }
}

/// The pieces that are not empty, in their order.
pub open spec fn nonempty_pieces(p: Seq<Seq<char>>) -> Seq<Seq<char>>
    decreases p.len(),
{
    if p.len() == 0 {
        p
    } else if p.last().len() > 0 {
        nonempty_pieces(p.drop_last()).push(p.last())
    } else {
        nonempty_pieces(p.drop_last())
    }
}

/// The words of a text: its longest runs of characters that are not whitespace.
pub open spec fn whitespace_words(s: Seq<char>) -> Seq<Seq<char>> {
    nonempty_pieces(split_white(s))
}

/// The views of a list of strings.
pub open spec fn string_texts(v: Seq<String>) -> Seq<Seq<char>> {
    Seq::new(v.len(), |i: int| v[i]@)
}

/// The value of a decimal digit; none for any other character.
pub open spec fn digit_value(c: char) -> Option<nat> {
    if c == '0' {
        Some(0)
    } else if c == '1' {
        Some(1)
    } else if c == '2' {
        Some(2)
    } else if c == '3' {
        Some(3)
    } else if c == '4' {
        Some(4)
    } else if c == '5' {
        Some(5)
    } else if c == '6' {
        Some(6)
    } else if c == '7' {
        Some(7)
    } else if c == '8' {
        Some(8)
    } else if c == '9' {
        Some(9)
    } else {
        None
    }
}

/// Every character is a decimal digit.
pub open spec fn all_digits(s: Seq<char>) -> bool {
    forall|i: int| 0 <= i < s.len() ==> digit_value(#[trigger] s[i]).is_some()
}

/// The number that a text of decimal digits stands for.
pub open spec fn decimal_value(s: Seq<char>) -> nat
    decreases s.len(),
{
    if s.len() == 0 {
        0
    } else {
        decimal_value(s.drop_last()) * 10 + match digit_value(s.last()) {
            Some(d) => d,
            None => 0,
        }
    }
}

/// The number that a text stands for as a `u32`: an optional `+`, then one
/// or more decimal digits and nothing else, the value within range.
pub open spec fn parsed_u32(s: Seq<char>) -> Option<u32> {
    let digits = if s.len() > 0 && s[0] == '+' {
        s.skip(1)
    } else {
        s
    };
    if digits.len() == 0 || !all_digits(digits) || decimal_value(digits) > u32::MAX {
        None
    } else {
        Some(decimal_value(digits) as u32)
    }
}

/// `String::push`: the text grows by the one character at its end.
#[verifier::external_body]
pub(crate) fn push_char(s: &mut String, c: char)
    ensures
        final(s)@ == old(s)@.push(c),
{
    s.push(c);
}

/// `str::to_lowercase`: the result is named, not described; it depends on the text alone.
#[verifier::external_body]
pub(crate) fn lowercase(s: &str) -> (r: String)
    ensures
        r@ == lowercased(s@),
{
    s.to_lowercase()
}

/// `char::is_whitespace`: the answer is named, not described; it depends
/// on the character alone.
#[verifier::external_body]
pub(crate) fn is_whitespace(c: char) -> (r: bool)
    ensures
        r == whitespace(c),
{
    c.is_whitespace()
}

/// The characters of a string.
pub fn chars_of(s: &str) -> (v: Vec<char>)
    ensures
        v@ == s@,
{
    let n: usize = s.unicode_len();
    let mut v: Vec<char> = Vec::new();
    let mut i: usize = 0;
    while i < n
        invariant
            i <= n,
            n == s@.len(),
            v@ == s@.take(i as int),
        decreases n - i,
    {
        v.push(s.get_char(i));
        i += 1;
        assert(v@ =~= s@.take(i as int));
    }
    assert(s@.take(n as int) =~= s@);
    v
}

/// Appends the characters `v[from..to]` to `s`.
pub fn append_chars(s: &mut String, v: &Vec<char>, from: usize, to: usize)
    requires
        from <= to <= v.len(),
    ensures
        final(s)@ == old(s)@ + v@.subrange(from as int, to as int),
{
    let mut i: usize = from;
    assert(s@ =~= old(s)@ + v@.subrange(from as int, from as int));
    while i < to
        invariant
            from <= i <= to <= v.len(),
            s@ == old(s)@ + v@.subrange(from as int, i as int),
        decreases to - i,
    {
        push_char(s, v[i]);
        i += 1;
        assert(s@ =~= old(s)@ + v@.subrange(from as int, i as int));
    }
}

/// The string made of the characters `v[from..to]`.
pub fn text_of(v: &Vec<char>, from: usize, to: usize) -> (s: String)
    requires
        from <= to <= v.len(),
    ensures
        s@ == v@.subrange(from as int, to as int),
{
    let mut s = String::new();
    append_chars(&mut s, v, from, to);
    assert(s@ =~= v@.subrange(from as int, to as int));
    s
}

/// The index of the first `c` in `v`, if there is one.
pub fn find_char(v: &Vec<char>, c: char) -> (r: Option<usize>)
    ensures
        r matches Some(i) ==> i < v.len() && v@.index_of_first(c) == Some(i as int),
        r.is_none() ==> v@.index_of_first(c).is_none(),
{
    let mut i: usize = 0;
    while i < v.len()
        invariant
            i <= v.len(),
            !v@.take(i as int).contains(c),
        decreases v.len() - i,
    {
        if v[i] == c {
            proof {
                v@.index_of_first_ensures(c);
                assert(v@[i as int] == c);
                assert(v@.contains(c));
                let k = v@.index_of_first(c).unwrap();
                if k < i {
                    assert(v@.take(i as int)[k] == c);
                }
            }
            return Some(i);
        }
        i += 1;
        assert forall|k: int| 0 <= k < i implies v@.take(i as int)[k] != c by {
            if k < i - 1 {
                assert(v@.take(i - 1)[k] == v@[k]);
                assert(v@.take(i - 1).contains(v@[k]));
            }
        }
    }
    assert(v@.take(v.len() as int) =~= v@);
    proof {
        v@.index_of_first_ensures(c);
    }
    None
}

/// Splits `s` at every `sep`.
pub fn split_on(s: &Vec<char>, sep: char) -> (parts: Vec<Vec<char>>)
    ensures
        texts(parts@) == split_text(s@, sep),
{
    let mut parts: Vec<Vec<char>> = Vec::new();
    let mut cur: Vec<char> = Vec::new();
    let mut i: usize = 0;
    assert(texts(parts@).push(cur@) =~= split_text(s@.take(0), sep));
    while i < s.len()
        invariant
            i <= s.len(),
            texts(parts@).push(cur@) == split_text(s@.take(i as int), sep),
        decreases s.len() - i,
    {
        let c = s[i];
        let ghost before = texts(parts@).push(cur@);
        assert(s@.take(i + 1).drop_last() =~= s@.take(i as int));
        if c == sep {
            parts.push(cur);
            cur = Vec::new();
            assert(texts(parts@).push(cur@) =~= before.push(Seq::empty()));
        } else {
            cur.push(c);
            assert(texts(parts@).push(cur@) =~= before.update(
                before.len() - 1,
                before.last().push(c),
            ));
        }
        i += 1;
    }
    assert(s@.take(s.len() as int) =~= s@);
    let ghost before = texts(parts@).push(cur@);
    parts.push(cur);
    assert(texts(parts@) =~= before);
    parts
}

/// Joins the pieces with `sep` between each two.
pub fn join_with(parts: &Vec<Vec<char>>, sep: char) -> (out: Vec<char>)
    ensures
        out@ == join_text(texts(parts@), sep),
{
    let mut out: Vec<char> = Vec::new();
    let mut k: usize = 0;
    let ghost all = texts(parts@);
    while k < parts.len()
        invariant
            k <= parts.len(),
            all == texts(parts@),
            out@ == join_text(all.take(k as int), sep),
        decreases parts.len() - k,
    {
        if k > 0 {
            out.push(sep);
        }
        let ghost start = out@;
        let piece = &parts[k];
        let mut j: usize = 0;
        while j < piece.len()
            invariant
                j <= piece.len(),
                out@ == start + piece@.take(j as int),
            decreases piece.len() - j,
        {
            out.push(piece[j]);
            j += 1;
            assert(out@ =~= start + piece@.take(j as int));
        }
        assert(piece@.take(piece.len() as int) =~= piece@);
        assert(all.take(k + 1).drop_last() =~= all.take(k as int));
        assert(all.take(k + 1).last() == piece@);
        if k == 0 {
            assert(out@ =~= piece@);
        }
        k += 1;
    }
    assert(all.take(parts.len() as int) =~= all);
    out
}

/// The same pieces in the opposite order.
pub fn reversed(parts: Vec<Vec<char>>) -> (out: Vec<Vec<char>>)
    ensures
        texts(out@) == texts(parts@).reverse(),
{
    let mut parts = parts;
    let ghost all = texts(parts@);
    let mut out: Vec<Vec<char>> = Vec::new();
    while parts.len() > 0
        invariant
            out@.len() + parts@.len() == all.len(),
            texts(parts@) == all.take(parts@.len() as int),
            texts(out@) == all.reverse().take(out@.len() as int),
        decreases parts.len(),
    {
        let ghost n = parts@.len() as int;
        let ghost done = texts(out@);
        let ghost left = texts(parts@);
        match parts.pop() {
            Some(piece) => {
                assert(piece@ == left[n - 1]);
                out.push(piece);
                assert(texts(parts@) =~= all.take(n - 1));
                assert(texts(out@) =~= all.reverse().take(out@.len() as int));
            },
            None => {},
        }
    }
    assert(texts(out@) =~= all.reverse());
    out
}

/// The decimal form of `n`.
pub fn decimal_string(n: u64) -> (s: String)
    ensures
        s@ == decimal(n as nat),
    decreases n,
{
    let d: u8 = (n % 10) as u8;
    let c: char = (48u8 + d) as char;
    if n < 10 {
        let mut s = String::new();
        push_char(&mut s, c);
        assert(s@ =~= seq![c]);
        s
    } else {
        let mut s = decimal_string(n / 10);
        push_char(&mut s, c);
        s
    }
}

/// Whether `a` comes before `b` or equals it.
pub fn text_before(a: &Vec<char>, b: &Vec<char>) -> (r: bool)
    ensures
        r == text_le(a@, b@),
{
    let mut k: usize = 0;
    assert(a@.skip(0) =~= a@ && b@.skip(0) =~= b@);
    while k < a.len()
        invariant
            k <= a.len(),
            k <= b.len(),
            text_le(a@, b@) == text_le(a@.skip(k as int), b@.skip(k as int)),
        decreases a.len() - k,
    {
        if k == b.len() {
            return false;
        }
        let x: char = a[k];
        let y: char = b[k];
        assert(a@.skip(k as int)[0] == x && b@.skip(k as int)[0] == y);
        if x != y {
            return x < y;
        }
        assert(a@.skip(k as int).skip(1) =~= a@.skip(k + 1));
        assert(b@.skip(k as int).skip(1) =~= b@.skip(k + 1));
        k += 1;
    }
    true
}

/// Putting a text behind position `j` is what `insert_text` does, where
/// every text from `j` on comes after it and the one before `j` does not.
pub proof fn lemma_insert_at(t: Seq<Seq<char>>, x: Seq<char>, j: int)
    requires
        0 <= j <= t.len(),
        forall|i: int| j <= i < t.len() ==> !text_le(#[trigger] t[i], x),
        j == 0 || text_le(t[j - 1], x),
    ensures
        insert_text(t, x) == t.insert(j, x),
    decreases t.len() - j,
{
    if j == t.len() {
        assert(t.push(x) =~= t.insert(j, x));
    } else {
        assert(!text_le(t[t.len() - 1], x));
        lemma_insert_at(t.drop_last(), x, j);
        assert(t.drop_last().insert(j, x).push(t.last()) =~= t.insert(j, x));
    }
}

/// The texts in lexicographic order by code point.
pub fn sort_texts(v: Vec<Vec<char>>) -> (out: Vec<Vec<char>>)
    ensures
        texts(out@) == sorted(texts(v@)),
{
    let ghost all = texts(v@);
    let mut rest = reversed(v);
    let mut out: Vec<Vec<char>> = Vec::new();
    assert(all.take(0) =~= Seq::<Seq<char>>::empty());
    assert(all.reverse().take(all.len() as int) =~= all.reverse());
    while rest.len() > 0
        invariant
            out@.len() + rest@.len() == all.len(),
            texts(rest@) == all.reverse().take(rest@.len() as int),
            texts(out@) == sorted(all.take(out@.len() as int)),
        decreases rest.len(),
    {
        let ghost k = out@.len() as int;
        let ghost before = texts(out@);
        let ghost left = texts(rest@);
        match rest.pop() {
            Some(x) => {
                assert(x@ == left[left.len() - 1]);
                assert(x@ == all[k]);
                let mut j: usize = out.len();
                while j > 0 && !text_before(&out[j - 1], &x)
                    invariant
                        j <= out.len(),
                        before == texts(out@),
                        forall|i: int| j <= i < before.len() ==> !text_le(#[trigger] before[i], x@),
                    decreases j,
                {
                    j -= 1;
                }
                proof {
                    lemma_insert_at(before, x@, j as int);
                    assert(all.take(k + 1).drop_last() =~= all.take(k));
                }
                out.insert(j, x);
                assert(texts(out@) =~= before.insert(j as int, x@));
                assert(texts(rest@) =~= all.reverse().take(rest@.len() as int));
            },
            None => {},
        }
    }
    assert(all.take(all.len() as int) =~= all);
    out
}

/// The lexicographic order as a relation.
pub open spec fn text_order() -> spec_fn(Seq<char>, Seq<char>) -> bool {
    |a: Seq<char>, b: Seq<char>| text_le(a, b)
}

/// Every text comes before or equals itself.
pub proof fn lemma_text_le_reflexive(a: Seq<char>)
    ensures
        text_le(a, a),
    decreases a.len(),
{
    if a.len() > 0 {
        lemma_text_le_reflexive(a.skip(1));
    }
}

/// Two texts that each come before or equal the other are equal.
pub proof fn lemma_text_le_antisymmetric(a: Seq<char>, b: Seq<char>)
    requires
        text_le(a, b),
        text_le(b, a),
    ensures
        a == b,
    decreases a.len(),
{
    if a.len() == 0 {
        assert(a =~= b);
    } else {
        lemma_text_le_antisymmetric(a.skip(1), b.skip(1));
        assert(a =~= seq![a[0]] + a.skip(1));
        assert(b =~= seq![b[0]] + b.skip(1));
    }
}

/// The order passes along a chain of three texts.
pub proof fn lemma_text_le_transitive(a: Seq<char>, b: Seq<char>, c: Seq<char>)
    requires
        text_le(a, b),
        text_le(b, c),
    ensures
        text_le(a, c),
    decreases a.len(),
{
    if a.len() > 0 && a[0] == b[0] && b[0] == c[0] {
        lemma_text_le_transitive(a.skip(1), b.skip(1), c.skip(1));
    }
}

/// Of two texts one comes before or equals the other.
pub proof fn lemma_text_le_total(a: Seq<char>, b: Seq<char>)
    ensures
        text_le(a, b) || text_le(b, a),
    decreases a.len(),
{
    if a.len() > 0 && b.len() > 0 && a[0] == b[0] {
        lemma_text_le_total(a.skip(1), b.skip(1));
    }
}

/// The lexicographic order is a total order.
pub proof fn lemma_text_order_total()
    ensures
        total_ordering(text_order()),
{
    let r = text_order();
    assert forall|x: Seq<char>| #[trigger] r(x, x) by {
        lemma_text_le_reflexive(x);
    }
    assert forall|x: Seq<char>, y: Seq<char>| #[trigger] r(x, y) && #[trigger] r(y, x) implies x
        == y by {
        lemma_text_le_antisymmetric(x, y);
    }
    assert forall|x: Seq<char>, y: Seq<char>, z: Seq<char>| #[trigger]
        r(x, y) && #[trigger] r(y, z) implies r(x, z) by {
        lemma_text_le_transitive(x, y, z);
    }
    assert forall|x: Seq<char>, y: Seq<char>| #[trigger] r(x, y) || #[trigger] r(y, x) by {
        lemma_text_le_total(x, y);
    }
}

/// A sorted list stays sorted when a text is put in, and holds that text more.
pub proof fn lemma_insert_sorted(t: Seq<Seq<char>>, x: Seq<char>)
    requires
        sorted_texts(t),
    ensures
        sorted_texts(insert_text(t, x)),
        insert_text(t, x).to_multiset() == t.to_multiset().insert(x),
    decreases t.len(),
{
    broadcast use group_to_multiset_ensures;

    if t.len() == 0 || text_le(t.last(), x) {
        let r = t.push(x);
        assert forall|i: int, j: int| 0 <= i < j < r.len() implies text_le(r[i], r[j]) by {
            if j == t.len() && i < t.len() - 1 {
                lemma_text_le_transitive(t[i], t.last(), x);
            }
        }
    } else {
        let d = t.drop_last();
        let top = t.last();
        let e = insert_text(d, x);
        lemma_insert_sorted(d, x);
        lemma_text_le_total(top, x);
        assert(t =~= d.push(top));
        let r = e.push(top);
        assert forall|i: int, j: int| 0 <= i < j < r.len() implies text_le(r[i], r[j]) by {
            if j == e.len() {
                assert(e.to_multiset().count(e[i]) > 0);
                if e[i] != x {
                    assert(d.to_multiset().count(e[i]) > 0);
                    assert(d.contains(e[i]));
                    let k = choose|k: int| 0 <= k < d.len() && d[k] == e[i];
                    assert(text_le(t[k], t[t.len() - 1]));
                }
            }
        }
        assert(r.to_multiset() =~= t.to_multiset().insert(x));
    }
}

/// Sorting gives the same texts in order.
pub proof fn lemma_sorted(t: Seq<Seq<char>>)
    ensures
        sorted_texts(sorted(t)),
        sorted(t).to_multiset() == t.to_multiset(),
    decreases t.len(),
{
    broadcast use group_to_multiset_ensures;

    if t.len() > 0 {
        lemma_sorted(t.drop_last());
        lemma_insert_sorted(sorted(t.drop_last()), t.last());
        assert(t =~= t.drop_last().push(t.last()));
    }
}

/// Sorting does not depend on the order in which the texts come: two
/// lists of the same texts, each as often as in the other, sort to the
/// same list.
pub proof fn lemma_sorted_order_free(a: Seq<Seq<char>>, b: Seq<Seq<char>>)
    requires
        a.to_multiset() == b.to_multiset(),
    ensures
        sorted(a) == sorted(b),
{
    lemma_sorted(a);
    lemma_sorted(b);
    lemma_text_order_total();
    let r = text_order();
    assert(sorted_by(sorted(a), r)) by {
        assert forall|i: int, j: int| 0 <= i < j < sorted(a).len() implies #[trigger] r(
            sorted(a)[i],
            sorted(a)[j],
        ) by {}
    }
    assert(sorted_by(sorted(b), r)) by {
        assert forall|i: int, j: int| 0 <= i < j < sorted(b).len() implies #[trigger] r(
            sorted(b)[i],
            sorted(b)[j],
        ) by {}
    }
    lemma_sorted_unique(sorted(a), sorted(b), r);
}

/// The value of a decimal digit.
pub fn digit_of(c: char) -> (r: Option<u32>)
    ensures
        r.is_some() == digit_value(c).is_some(),
        r matches Some(d) ==> d < 10 && digit_value(c) == Some(d as nat),
{
    if c == '0' {
        Some(0)
    } else if c == '1' {
        Some(1)
    } else if c == '2' {
        Some(2)
    } else if c == '3' {
        Some(3)
    } else if c == '4' {
        Some(4)
    } else if c == '5' {
        Some(5)
    } else if c == '6' {
        Some(6)
    } else if c == '7' {
        Some(7)
    } else if c == '8' {
        Some(8)
    } else if c == '9' {
        Some(9)
    } else {
        None
    }
}

/// A longer text of digits stands for no smaller number than its beginning.
pub proof fn lemma_decimal_value_grows(s: Seq<char>, k: int)
    requires
        0 <= k <= s.len(),
    ensures
        decimal_value(s.take(k)) <= decimal_value(s),
    decreases s.len() - k,
{
    if k < s.len() {
        lemma_decimal_value_grows(s.drop_last(), k);
        assert(s.drop_last().take(k) =~= s.take(k));
    } else {
        assert(s.take(k) =~= s);
    }
}

/// Reads a `u32` in decimal.
pub fn parse_u32(s: &str) -> (r: Option<u32>)
    ensures
        r == parsed_u32(s@),
{
    let chars = chars_of(s);
    let n: usize = chars.len();
    let start: usize = if n > 0 && chars[0] == '+' { 1 } else { 0 };
    if start == n {
        return None;
    }
    let ghost digits = chars@.skip(start as int);
    assert(chars@.skip(0) =~= chars@);
    let mut value: u64 = 0;
    let mut i: usize = start;
    assert(digits.take(0) =~= Seq::<char>::empty());
    while i < n
        invariant
            start <= i <= n,
            start < n,
            n == chars.len(),
            chars@ == s@,
            start == if chars@[0] == '+' { 1int } else { 0int },
            digits == chars@.skip(start as int),
            digits == if s@.len() > 0 && s@[0] == '+' { s@.skip(1) } else { s@ },
            all_digits(digits.take(i - start)),
            value == decimal_value(digits.take(i - start)),
            value <= u32::MAX,
        decreases n - i,
    {
        let ghost head = digits.take(i - start);
        let ghost next = digits.take(i + 1 - start);
        assert(next.drop_last() =~= head);
        assert(next.last() == chars@[i as int]);
        match digit_of(chars[i]) {
            None => {
                assert(digits[i - start] == chars@[i as int]);
                return None;
            },
            Some(d) => {
                value = value * 10 + d as u64;
                assert forall|j: int| 0 <= j < next.len() implies digit_value(
                    #[trigger] next[j],
                ).is_some() by {
                    if j < head.len() {
                        assert(next[j] == head[j]);
                    }
                }
                if value > 0xffff_ffff {
                    proof {
                        lemma_decimal_value_grows(digits, i + 1 - start);
                    }
                    return None;
                }
            },
        }
        i += 1;
    }
    assert(digits.take(n - start) =~= digits);
    Some(value as u32)
}

/// A text always splits into at least one piece.
pub proof fn lemma_split_nonempty(s: Seq<char>, sep: char)
    ensures
        split_text(s, sep).len() >= 1,
    decreases s.len(),
{
    if s.len() > 0 {
        lemma_split_nonempty(s.drop_last(), sep);
    }
}

/// A text without a separator is its own single piece.
pub proof fn lemma_split_whole(s: Seq<char>, sep: char)
    requires
        !s.contains(sep),
    ensures
        split_text(s, sep) == seq![s],
    decreases s.len(),
{
    if s.len() == 0 {
        assert(s =~= Seq::<char>::empty());
    } else {
        let head = s.drop_last();
        assert forall|i: int| 0 <= i < head.len() implies head[i] != sep by {
            assert(s[i] == head[i]);
            assert(s.contains(s[i]));
        }
        assert(s.contains(s.last()));
        lemma_split_whole(head, sep);
        assert(head.push(s.last()) =~= s);
        assert(seq![head].update(0, head.push(s.last())) =~= seq![s]);
    }
}

/// The pieces of two texts with a separator between them are the pieces
/// of the first and then the pieces of the second.
pub proof fn lemma_split_joined(a: Seq<char>, b: Seq<char>, sep: char)
    ensures
        split_text(a.push(sep) + b, sep) == split_text(a, sep) + split_text(b, sep),
    decreases b.len(),
{
    let whole = a.push(sep) + b;
    lemma_split_nonempty(b, sep);
    if b.len() == 0 {
        assert(whole.drop_last() =~= a);
        assert(split_text(a, sep).push(Seq::<char>::empty()) =~= split_text(a, sep) + split_text(
            b,
            sep,
        ));
    } else {
        let rest = b.drop_last();
        lemma_split_joined(a, rest, sep);
        lemma_split_nonempty(rest, sep);
        assert(whole.drop_last() =~= a.push(sep) + rest);
        assert(whole.last() == b.last());
        let left = split_text(a, sep);
        let right = split_text(rest, sep);
        if b.last() == sep {
            assert((left + right).push(Seq::<char>::empty()) =~= left + right.push(
                Seq::<char>::empty(),
            ));
        } else {
            assert((left + right).update(
                (left + right).len() - 1,
                (left + right).last().push(b.last()),
            ) =~= left + right.update(right.len() - 1, right.last().push(b.last())));
        }
    }
}

/// The text without the whitespace at its start and at its end.
pub fn trim(s: &str) -> (r: String)
    ensures
        r@ == trimmed(s@),
{
    let chars = chars_of(s);
    let mut end: usize = chars.len();
    assert(chars@.take(end as int) =~= chars@);
    while end > 0 && is_whitespace(chars[end - 1])
        invariant
            end <= chars.len(),
            trim_end_text(chars@) == trim_end_text(chars@.take(end as int)),
        decreases end,
    {
        assert(chars@.take(end as int).drop_last() =~= chars@.take(end - 1));
        end -= 1;
    }
    let ghost kept = chars@.take(end as int);
    assert(trim_end_text(chars@) == kept);
    let mut start: usize = 0;
    assert(chars@.subrange(0, end as int) =~= kept);
    while start < end && is_whitespace(chars[start])
        invariant
            start <= end <= chars.len(),
            trim_start_text(kept) == trim_start_text(chars@.subrange(start as int, end as int)),
        decreases end - start,
    {
        assert(chars@.subrange(start as int, end as int).skip(1) =~= chars@.subrange(
            start + 1,
            end as int,
        ));
        start += 1;
    }
    text_of(&chars, start, end)
}

/// The words of a text.
pub fn split_whitespace(s: &str) -> (words: Vec<String>)
    ensures
        string_texts(words@) == whitespace_words(s@),
{
    let chars = chars_of(s);
    let mut words: Vec<String> = Vec::new();
    let mut from: usize = 0;
    let mut i: usize = 0;
    assert(chars@.subrange(0, 0) =~= split_white(chars@.take(0)).last());
    assert(string_texts(words@) =~= nonempty_pieces(split_white(chars@.take(0)).drop_last()));
    while i < chars.len()
        invariant
            from <= i <= chars.len(),
            chars@ == s@,
            split_white(chars@.take(i as int)).len() >= 1,
            chars@.subrange(from as int, i as int) == split_white(chars@.take(i as int)).last(),
            string_texts(words@) == nonempty_pieces(split_white(chars@.take(i as int)).drop_last()),
        decreases chars.len() - i,
    {
        let ghost before = split_white(chars@.take(i as int));
        let ghost found = string_texts(words@);
        assert(chars@.take(i + 1).drop_last() =~= chars@.take(i as int));
        if is_whitespace(chars[i]) {
            assert(before.push(Seq::<char>::empty()).drop_last() =~= before);
            assert(before =~= before.drop_last().push(before.last()));
            if from < i {
                let word = text_of(&chars, from, i);
                words.push(word);
                assert(string_texts(words@) =~= found.push(before.last()));
            }
            from = i + 1;
            assert(chars@.subrange(from as int, from as int) =~= Seq::<char>::empty());
        } else {
            let ghost after = before.update(before.len() - 1, before.last().push(chars@[i as int]));
            assert(after.drop_last() =~= before.drop_last());
            assert(chars@.subrange(from as int, i + 1) =~= before.last().push(chars@[i as int]));
        }
        i += 1;
    }
    assert(chars@.take(chars.len() as int) =~= chars@);
    let ghost all = split_white(chars@);
    let ghost found = string_texts(words@);
    assert(all =~= all.drop_last().push(all.last()));
    if from < i {
        let word = text_of(&chars, from, i);
        words.push(word);
        assert(string_texts(words@) =~= found.push(all.last()));
    }
    words
}

} // verus!
