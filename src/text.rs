use vstd::prelude::*;

verus! {

/// The characters with the Unicode `White_Space` property.
pub open spec fn is_space(c: char) -> bool {
    ('\u{9}' <= c && c <= '\u{d}') || c == ' ' || c == '\u{85}' || c == '\u{a0}'
        || c == '\u{1680}' || ('\u{2000}' <= c && c <= '\u{200a}') || c == '\u{2028}'
        || c == '\u{2029}' || c == '\u{202f}' || c == '\u{205f}' || c == '\u{3000}'
}

pub fn space(c: char) -> (r: bool)
    ensures
        r == is_space(c),
{
    ('\u{9}' <= c && c <= '\u{d}') || c == ' ' || c == '\u{85}' || c == '\u{a0}'
        || c == '\u{1680}' || ('\u{2000}' <= c && c <= '\u{200a}') || c == '\u{2028}'
        || c == '\u{2029}' || c == '\u{202f}' || c == '\u{205f}' || c == '\u{3000}'
}

/// True when the text holds nothing but whitespace.
pub open spec fn is_blank(s: Seq<char>) -> bool {
    forall|i: int| 0 <= i < s.len() ==> is_space(#[trigger] s[i])
}

/// Number of whitespace characters at the start of `s`.
pub open spec fn lead(s: Seq<char>) -> nat
    decreases s.len(),
{
    if s.len() > 0 && is_space(s[0]) {
        1 + lead(s.drop_first())
    } else {
        0
    }
}

/// Number of whitespace characters at the end of `s`.
pub open spec fn trail(s: Seq<char>) -> nat
    decreases s.len(),
{
    if s.len() > 0 && is_space(s.last()) {
        1 + trail(s.drop_last())
    } else {
        0
    }
}

/// `s` without its leading and trailing whitespace.
pub open spec fn trimmed(s: Seq<char>) -> Seq<char> {
    let t = s.skip(lead(s) as int);
    t.take(t.len() - trail(t))
}

/// Length of the run of non-whitespace characters at the start of `s`.
pub open spec fn word_len(s: Seq<char>) -> nat
    decreases s.len(),
{
    if s.len() > 0 && !is_space(s[0]) {
        1 + word_len(s.drop_first())
    } else {
        0
    }
}

/// The maximal runs of non-whitespace characters of `s`, in order.
pub open spec fn words(s: Seq<char>) -> Seq<Seq<char>>
    decreases s.len()
    via words_decreases
{
    if s.len() == 0 {
        seq![]
    } else if is_space(s[0]) {
        words(s.drop_first())
    } else {
        let k = word_len(s);
        seq![s.take(k as int)] + words(s.skip(k as int))
    }
}

pub proof fn lemma_word_len(s: Seq<char>)
    ensures
        word_len(s) <= s.len(),
        s.len() > 0 && !is_space(s[0]) ==> word_len(s) >= 1,
        forall|i: int| 0 <= i < word_len(s) ==> !is_space(#[trigger] s[i]),
        word_len(s) < s.len() ==> is_space(s[word_len(s) as int]),
    decreases s.len(),
{
    if s.len() > 0 && !is_space(s[0]) {
        lemma_word_len(s.drop_first());
        assert forall|i: int| 0 <= i < word_len(s) implies !is_space(#[trigger] s[i]) by {
            if i > 0 {
                assert(s[i] == s.drop_first()[i - 1]);
            }
        }
    }
}

#[via_fn]
proof fn words_decreases(s: Seq<char>) {
    lemma_word_len(s);
}

pub open spec fn bar_at(s: Seq<char>, i: int) -> bool {
    0 <= i && i + 3 <= s.len() && s[i] == ' ' && s[i + 1] == '|' && s[i + 2] == ' '
}

/// Adds `c` to the front of the first piece.
pub open spec fn push_front(c: char, parts: Seq<Seq<char>>) -> Seq<Seq<char>> {
    parts.update(0, seq![c] + parts[0])
}

/// `s` cut at each occurrence of `" | "`, scanning from the left; the
/// separators are left out. There is always at least one piece.
pub open spec fn split_bar(s: Seq<char>) -> Seq<Seq<char>>
    decreases s.len(),
{
    if s.len() == 0 {
        seq![seq![]]
    } else if bar_at(s, 0) {
        seq![seq![]] + split_bar(s.skip(3))
    } else {
        push_front(s[0], split_bar(s.drop_first()))
    }
}

pub proof fn lemma_split_bar_nonempty(s: Seq<char>)
    ensures
        split_bar(s).len() >= 1,
    decreases s.len(),
{
    if s.len() > 0 {
        if bar_at(s, 0) {
            lemma_split_bar_nonempty(s.skip(3));
        } else {
            lemma_split_bar_nonempty(s.drop_first());
        }
    }
}

proof fn lemma_lead_bound(s: Seq<char>)
    ensures
        lead(s) <= s.len(),
        forall|i: int| 0 <= i < lead(s) ==> is_space(#[trigger] s[i]),
        lead(s) < s.len() ==> !is_space(s[lead(s) as int]),
    decreases s.len(),
{
    if s.len() > 0 && is_space(s[0]) {
        lemma_lead_bound(s.drop_first());
        assert forall|i: int| 0 <= i < lead(s) implies is_space(#[trigger] s[i]) by {
            if i > 0 {
                assert(s[i] == s.drop_first()[i - 1]);
            }
        }
    }
}

proof fn lemma_trail_bound(s: Seq<char>)
    ensures
        trail(s) <= s.len(),
        forall|i: int| s.len() - trail(s) <= i < s.len() ==> is_space(#[trigger] s[i]),
        trail(s) < s.len() ==> !is_space(s[s.len() - trail(s) - 1]),
    decreases s.len(),
{
    if s.len() > 0 && is_space(s.last()) {
        lemma_trail_bound(s.drop_last());
        assert forall|i: int| s.len() - trail(s) <= i < s.len() implies is_space(
            #[trigger] s[i],
        ) by {
            if i < s.len() - 1 {
                assert(s[i] == s.drop_last()[i]);
            }
        }
    }
}

/// Number of leading whitespace characters of `s`.
fn lead_count(s: &Vec<char>) -> (r: usize)
    ensures
        r == lead(s@),
{
    let mut i: usize = 0;
    assert(s@.skip(0) =~= s@);
    while i < s.len() && space(s[i])
        invariant
            i <= s.len(),
            lead(s@) == i + lead(s@.skip(i as int)),
        decreases s.len() - i,
    {
        proof {
            let t = s@.skip(i as int);
            assert(t.drop_first() =~= s@.skip(i + 1));
        }
        i = i + 1;
    }
    proof {
        let t = s@.skip(i as int);
        if i < s.len() {
            assert(t[0] == s@[i as int]);
        }
    }
    i
}

/// Number of trailing whitespace characters of `s[from..]`.
fn trail_count(s: &Vec<char>, from: usize) -> (r: usize)
    requires
        from <= s.len(),
    ensures
        r == trail(s@.skip(from as int)),
{
    let mut j: usize = s.len();
    while j > from && space(s[j - 1])
        invariant
            from <= j <= s.len(),
            trail(s@.skip(from as int)) == (s.len() - j) + trail(s@.subrange(from as int, j as int)),
        decreases j,
    {
        proof {
            let t = s@.subrange(from as int, j as int);
            assert(t.drop_last() =~= s@.subrange(from as int, j - 1));
            assert(t.last() == s@[j - 1]);
        }
        j = j - 1;
    }
    proof {
        let t = s@.subrange(from as int, j as int);
        if j > from {
            assert(t.last() == s@[j - 1]);
        }
    }
    (s.len() - j) as usize
}

/// Copy of `s[from..to]`.
fn slice(s: &Vec<char>, from: usize, to: usize) -> (r: Vec<char>)
    requires
        from <= to <= s.len(),
    ensures
        r@ == s@.subrange(from as int, to as int),
{
    let mut r: Vec<char> = Vec::new();
    let mut i: usize = from;
    while i < to
        invariant
            from <= i <= to <= s.len(),
            r@ == s@.subrange(from as int, i as int),
        decreases to - i,
    {
        r.push(s[i]);
        proof {
            assert(r@ =~= s@.subrange(from as int, i + 1));
        }
        i = i + 1;
    }
    r
}

/// A copy of `s`.
pub fn copy_text(s: &Vec<char>) -> (r: Vec<char>)
    ensures
        r@ == s@,
{
    let r = slice(s, 0, s.len());
    assert(s@.subrange(0, s.len() as int) =~= s@);
    r
}

/// `s` without leading and trailing whitespace.
pub fn trim(s: &Vec<char>) -> (r: Vec<char>)
    ensures
        r@ == trimmed(s@),
{
    let a = lead_count(s);
    proof {
        lemma_lead_bound(s@);
    }
    let b = trail_count(s, a);
    proof {
        lemma_trail_bound(s@.skip(a as int));
        assert(s@.skip(a as int).take(s.len() - a - b) =~= s@.subrange(a as int, s.len() - b));
    }
    slice(s, a, s.len() - b)
}


/// The contents of each text of `v`.
pub open spec fn texts(v: Seq<Vec<char>>) -> Seq<Seq<char>> {
    v.map_values(|w: Vec<char>| w@)
}

/// Index just past the run of non-whitespace characters that starts at `i`.
fn word_end(s: &Vec<char>, i: usize) -> (r: usize)
    requires
        i <= s.len(),
    ensures
        r == i + word_len(s@.skip(i as int)),
{
    let mut j: usize = i;
    while j < s.len() && !space(s[j])
        invariant
            i <= j <= s.len(),
            word_len(s@.skip(i as int)) == (j - i) + word_len(s@.skip(j as int)),
        decreases s.len() - j,
    {
        proof {
            let t = s@.skip(j as int);
            assert(t.drop_first() =~= s@.skip(j + 1));
        }
        j = j + 1;
    }
    proof {
        let t = s@.skip(j as int);
        if j < s.len() {
            assert(t[0] == s@[j as int]);
        }
    }
    j
}

/// The whitespace-separated words of `s`, in order.
pub fn split_words(s: &Vec<char>) -> (r: Vec<Vec<char>>)
    ensures
        texts(r@) == words(s@),
{
    let mut out: Vec<Vec<char>> = Vec::new();
    let mut i: usize = 0;
    assert(s@.skip(0) =~= s@);
    while i < s.len()
        invariant
            i <= s.len(),
            words(s@) == texts(out@) + words(s@.skip(i as int)),
        decreases s.len() - i,
    {
        let ghost t = s@.skip(i as int);
        assert(t[0] == s@[i as int]);
        if space(s[i]) {
            assert(t.drop_first() =~= s@.skip(i + 1));
            i = i + 1;
        } else {
            let j = word_end(s, i);
            proof {
                lemma_word_len(t);
                assert(t.skip(j - i) =~= s@.skip(j as int));
                assert(t.take(j - i) =~= s@.subrange(i as int, j as int));
            }
            let w = slice(s, i, j);
            let ghost before = texts(out@);
            out.push(w);
            proof {
                assert(texts(out@) =~= before.push(w@));
                assert(words(t) == seq![w@] + words(s@.skip(j as int)));
                assert(before + words(t) =~= before.push(w@) + words(s@.skip(j as int)));
            }
            i = j;
        }
    }
    assert(s@.skip(i as int) =~= Seq::<char>::empty());
    assert(texts(out@) + Seq::<Seq<char>>::empty() =~= texts(out@));
    out
}

/// `cur` added to the front of the first piece.
pub open spec fn glue(cur: Seq<char>, parts: Seq<Seq<char>>) -> Seq<Seq<char>> {
    parts.update(0, cur + parts[0])
}

/// The pieces of `s` between the occurrences of `" | "`.
pub fn split_stages(s: &Vec<char>) -> (r: Vec<Vec<char>>)
    ensures
        texts(r@) == split_bar(s@),
        r.len() >= 1,
{
    let mut done: Vec<Vec<char>> = Vec::new();
    let mut cur: Vec<char> = Vec::new();
    let mut i: usize = 0;
    assert(s@.skip(0) =~= s@);
    proof {
        lemma_split_bar_nonempty(s@);
        assert(glue(cur@, split_bar(s@)) =~= split_bar(s@));
    }
    while i < s.len()
        invariant
            i <= s.len(),
            split_bar(s@) == texts(done@) + glue(cur@, split_bar(s@.skip(i as int))),
        decreases s.len() - i,
    {
        let ghost t = s@.skip(i as int);
        let ghost d = texts(done@);
        proof {
            lemma_split_bar_nonempty(t);
        }
        if s.len() - i >= 3 && s[i] == ' ' && s[i + 1] == '|' && s[i + 2] == ' ' {
            proof {
                assert(t[0] == s@[i as int] && t[1] == s@[i + 1] && t[2] == s@[i + 2]);
                assert(bar_at(t, 0));
                assert(t.skip(3) =~= s@.skip(i + 3));
                lemma_split_bar_nonempty(t.skip(3));
                let rest = split_bar(t.skip(3));
                assert(glue(cur@, split_bar(t)) =~= seq![cur@] + rest);
                assert(glue(Seq::<char>::empty(), rest) =~= rest);
            }
            done.push(cur);
            cur = Vec::new();
            proof {
                assert(texts(done@) =~= d.push(done@.last()@));
                assert(d + (seq![done@.last()@] + split_bar(t.skip(3))) =~= texts(done@)
                    + glue(cur@, split_bar(s@.skip(i + 3))));
            }
            i = i + 3;
        } else {
            proof {
                if i + 3 <= s.len() {
                    assert(t[0] == s@[i as int] && t[1] == s@[i + 1] && t[2] == s@[i + 2]);
                }
                assert(!bar_at(t, 0));
                assert(t[0] == s@[i as int]);
                assert(t.drop_first() =~= s@.skip(i + 1));
                lemma_split_bar_nonempty(t.drop_first());
            }
            let ghost old_cur = cur@;
            cur.push(s[i]);
            proof {
                let p = split_bar(t.drop_first());
                assert(old_cur + (seq![s@[i as int]] + p[0]) =~= cur@ + p[0]);
                assert(glue(old_cur, push_front(s@[i as int], p)) =~= glue(cur@, p));
            }
            i = i + 1;
        }
    }
    proof {
        assert(s@.skip(i as int) =~= Seq::<char>::empty());
        assert(glue(cur@, seq![Seq::<char>::empty()]) =~= seq![cur@]);
    }
    let ghost d = texts(done@);
    done.push(cur);
    proof {
        assert(texts(done@) =~= d + seq![done@.last()@]);
    }
    done
}

/// True when `s` holds nothing but whitespace.
pub fn blank(s: &Vec<char>) -> (r: bool)
    ensures
        r == is_blank(s@),
{
    let mut i: usize = 0;
    while i < s.len()
        invariant
            i <= s.len(),
            forall|k: int| 0 <= k < i ==> is_space(#[trigger] s@[k]),
        decreases s.len() - i,
    {
        if !space(s[i]) {
            return false;
        }
        i = i + 1;
    }
    true
}

/// A text is blank exactly when nothing is left of it once trimmed.
pub proof fn lemma_blank_iff_trims_to_empty(s: Seq<char>)
    ensures
        is_blank(s) <==> trimmed(s).len() == 0,
{
    lemma_lead_bound(s);
    let t = s.skip(lead(s) as int);
    lemma_trail_bound(t);
    if is_blank(s) {
        if lead(s) < s.len() {
            assert(is_space(s[lead(s) as int]));
        }
    }
    if trimmed(s).len() == 0 {
        assert forall|i: int| 0 <= i < s.len() implies is_space(#[trigger] s[i]) by {
            if i >= lead(s) {
                assert(s[i] == t[i - lead(s)]);
            }
        }
    }
}

} // verus!
