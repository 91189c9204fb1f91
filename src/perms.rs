//! Permutations with repetition: every word of a fixed length over an alphabet.
use vstd::arithmetic::div_mod::{
    lemma_fundamental_div_mod, lemma_fundamental_div_mod_converse_div,
    lemma_fundamental_div_mod_converse_mod, lemma_mod_bound,
};
use vstd::arithmetic::power::pow;
use vstd::prelude::*;

verus! {

/// The alphabet as a sequence of tokens, each token a character sequence.
pub open spec fn tokens(elements: Seq<&str>) -> Seq<Seq<char>> {
    elements.map_values(|e: &str| e@)
}

/// The character sequences held by a sequence of strings.
pub open spec fn string_views(s: Seq<String>) -> Seq<Seq<char>> {
    s.map_values(|x: String| x@)
}

/// Prefixes every word with every token: entry `i * k + j` is token `j`
/// followed by word `i`, where `k` is the alphabet's size.
pub open spec fn extend(words: Seq<Seq<char>>, alpha: Seq<Seq<char>>) -> Seq<Seq<char>> {
    Seq::new(
        words.len() * alpha.len(),
        |x: int| alpha[x % (alpha.len() as int)] + words[x / (alpha.len() as int)],
    )
}

/// All words of `n` tokens, in the order in which they are generated.
pub open spec fn words(alpha: Seq<Seq<char>>, n: nat) -> Seq<Seq<char>>
    decreases n,
{
    if n == 0 {
        seq![Seq::<char>::empty()]
    } else {
        extend(words(alpha, (n - 1) as nat), alpha)
    }
}

/// Index arithmetic of `extend`: position `x` splits into a word index and a
/// token index.
proof fn lemma_index_split(x: int, m: int, k: int)
    requires
        0 < k,
        0 <= x < m * k,
    ensures
        0 <= x % k < k,
        0 <= x / k < m,
        x == (x / k) * k + x % k,
{
    lemma_fundamental_div_mod(x, k);
    lemma_mod_bound(x, k);
    let q = x / k;
    let r = x % k;
    assert(x == q * k + r) by (nonlinear_arith)
        requires
            x == k * q + r,
    ;
    assert(0 <= q < m) by (nonlinear_arith)
        requires
            x == q * k + r,
            0 <= r < k,
            0 <= x < m * k,
    ;
}

/// Index arithmetic of `extend`: a word index and a token index give one
/// position.
proof fn lemma_index_join(i: int, j: int, m: int, k: int)
    requires
        0 <= i < m,
        0 <= j < k,
    ensures
        0 <= i * k + j < m * k,
        (i * k + j) % k == j,
        (i * k + j) / k == i,
{
    assert(0 <= i * k + j < m * k) by (nonlinear_arith)
        requires
            0 <= i < m,
            0 <= j < k,
    ;
    lemma_fundamental_div_mod_converse_mod(i * k + j, k, i, j);
    lemma_fundamental_div_mod_converse_div(i * k + j, k, i, j);
}

/// Words of one token are the tokens themselves.
proof fn lemma_words_one(alpha: Seq<Seq<char>>)
    ensures
        words(alpha, 1) == alpha,
{
    let w = words(alpha, 1);
    assert(w == extend(words(alpha, 0), alpha));
    assert(words(alpha, 0).len() == 1);
    assert(w.len() == 1 * alpha.len());
    assert forall|x: int| 0 <= x < alpha.len() implies w[x] == alpha[x] by {
        lemma_index_join(0, x, 1, alpha.len() as int);
        assert(alpha[x] + Seq::<char>::empty() =~= alpha[x]);
    }
    assert(w =~= alpha);
}

/// Builds `extend` of the current words over the alphabet.
fn extend_words(elements: &Vec<&str>, acc: &Vec<String>) -> (r: Vec<String>)
    ensures
        string_views(r@) == extend(string_views(acc@), tokens(elements@)),
{
    let ghost alpha = tokens(elements@);
    let ghost prev = string_views(acc@);
    let k = elements.len();
    let mut out: Vec<String> = Vec::new();
    let mut i: usize = 0;
    while i < acc.len()
        invariant
            i <= acc.len(),
            k == alpha.len(),
            prev.len() == acc@.len(),
            alpha == tokens(elements@),
            prev == string_views(acc@),
            out@.len() == i * k,
            forall|x: int|
                0 <= x < out@.len() ==> #[trigger] out@[x]@ == alpha[x % (k as int)] + prev[x / (
                k as int)],
        decreases acc.len() - i,
    {
        let mut j: usize = 0;
        while j < k
            invariant
                i < acc.len(),
                j <= k,
                k == alpha.len(),
                prev.len() == acc@.len(),
                alpha == tokens(elements@),
                prev == string_views(acc@),
                out@.len() == i * k + j,
                forall|x: int|
                    0 <= x < out@.len() ==> #[trigger] out@[x]@ == alpha[x % (k as int)] + prev[x
                        / (k as int)],
            decreases k - j,
        {
            let word = elements[j].to_owned().concat(acc[i].as_str());
            proof {
                lemma_index_join(i as int, j as int, acc.len() as int, k as int);
            }
            out.push(word);
            j = j + 1;
        }
        assert((i + 1) * k == i * k + k) by (nonlinear_arith);
        i = i + 1;
    }
    let ghost target = extend(prev, alpha);
    assert(string_views(out@) =~= target);
    out
}

/// Every token is exactly one character long.
pub open spec fn single_char_tokens(alpha: Seq<Seq<char>>) -> bool {
    forall|j: int| 0 <= j < alpha.len() ==> (#[trigger] alpha[j]).len() == 1
}

/// `w` has length `n` and each of its characters is a token of `alpha`.
pub open spec fn is_word(w: Seq<char>, alpha: Seq<Seq<char>>, n: nat) -> bool {
    &&& w.len() == n
    &&& forall|i: int| 0 <= i < w.len() ==> alpha.contains(seq![#[trigger] w[i]])
}

/// There are `k^n` words of `n` tokens over `k` tokens.
proof fn lemma_words_len(alpha: Seq<Seq<char>>, n: nat)
    ensures
        words(alpha, n).len() == pow(alpha.len() as int, n),
    decreases n,
{
    reveal(pow);
    if n > 0 {
        let k = alpha.len() as int;
        let m = words(alpha, (n - 1) as nat).len() as int;
        lemma_words_len(alpha, (n - 1) as nat);
        assert(m * k == k * m) by (nonlinear_arith);
    }
}

/// Over single-character tokens, each generated word is a word of length `n`.
proof fn lemma_words_shape(alpha: Seq<Seq<char>>, n: nat)
    requires
        single_char_tokens(alpha),
    ensures
        forall|x: int|
            0 <= x < words(alpha, n).len() ==> is_word(#[trigger] words(alpha, n)[x], alpha, n),
    decreases n,
{
    if n > 0 {
        let k = alpha.len() as int;
        let prev = words(alpha, (n - 1) as nat);
        lemma_words_shape(alpha, (n - 1) as nat);
        assert forall|x: int| 0 <= x < words(alpha, n).len() implies is_word(
            #[trigger] words(alpha, n)[x],
            alpha,
            n,
        ) by {
            lemma_index_split(x, prev.len() as int, k);
            let t = alpha[x % k];
            let p = prev[x / k];
            let w = words(alpha, n)[x];
            assert(is_word(p, alpha, (n - 1) as nat));
            assert(w == t + p);
            assert(t =~= seq![t[0]]);
            assert(alpha.contains(t));
            assert forall|i: int| 0 <= i < w.len() implies alpha.contains(seq![#[trigger] w[i]]) by {
                if i > 0 {
                    assert(w[i] == p[i - 1]);
                }
            }
        }
    }
}

/// Over single-character tokens, every word of length `n` is generated.
proof fn lemma_words_complete(alpha: Seq<Seq<char>>, n: nat, w: Seq<char>)
    requires
        is_word(w, alpha, n),
    ensures
        words(alpha, n).contains(w),
    decreases n,
{
    if n == 0 {
        assert(w =~= words(alpha, 0)[0]);
    } else {
        let k = alpha.len() as int;
        let prev = words(alpha, (n - 1) as nat);
        let tail = w.subrange(1, w.len() as int);
        assert forall|i: int| 0 <= i < tail.len() implies alpha.contains(
            seq![#[trigger] tail[i]],
        ) by {
            assert(tail[i] == w[i + 1]);
        }
        lemma_words_complete(alpha, (n - 1) as nat, tail);
        let i = choose|i: int| 0 <= i < prev.len() && prev[i] == tail;
        assert(alpha.contains(seq![w[0]]));
        let j = choose|j: int| 0 <= j < alpha.len() && alpha[j] == seq![w[0]];
        lemma_index_join(i, j, prev.len() as int, k);
        let x = i * k + j;
        assert(words(alpha, n)[x] =~= w);
    }
}

/// Over distinct single-character tokens, no word is generated twice.
proof fn lemma_words_distinct(alpha: Seq<Seq<char>>, n: nat)
    requires
        single_char_tokens(alpha),
        alpha.no_duplicates(),
    ensures
        words(alpha, n).no_duplicates(),
    decreases n,
{
    if n > 0 {
        let k = alpha.len() as int;
        let cur = words(alpha, n);
        let prev = words(alpha, (n - 1) as nat);
        lemma_words_distinct(alpha, (n - 1) as nat);
        lemma_words_shape(alpha, (n - 1) as nat);
        assert forall|x: int, y: int|
            0 <= x < cur.len() && 0 <= y < cur.len() && x != y implies #[trigger] cur[x]
            != #[trigger] cur[y] by {
            lemma_index_split(x, prev.len() as int, k);
            lemma_index_split(y, prev.len() as int, k);
            let (tx, ty) = (alpha[x % k], alpha[y % k]);
            let (px, py) = (prev[x / k], prev[y / k]);
            assert(is_word(px, alpha, (n - 1) as nat));
            if x % k != y % k {
                assert(tx != ty);
                assert(tx =~= seq![tx[0]]);
                assert(ty =~= seq![ty[0]]);
                assert(cur[x][0] == tx[0]);
                assert(cur[y][0] == ty[0]);
            } else {
                assert(x / k != y / k);
                assert(px != py);
                assert(cur[x].subrange(1, cur[x].len() as int) =~= px);
                assert(cur[y].subrange(1, cur[y].len() as int) =~= py);
            }
        }
    }
}

/// Over an alphabet of `k >= 2` distinct single-character tokens and a length
/// `n >= 2`, the generated words are exactly `k^n` strings, pairwise distinct,
/// and they are precisely the strings of length `n` whose characters all
/// belong to the alphabet.
pub proof fn lemma_generate_all_words(alpha: Seq<Seq<char>>, n: nat)
    requires
        alpha.len() >= 2,
        n >= 2,
        single_char_tokens(alpha),
        alpha.no_duplicates(),
    ensures
        words(alpha, n).len() == pow(alpha.len() as int, n),
        words(alpha, n).no_duplicates(),
        forall|w: Seq<char>| #[trigger] words(alpha, n).contains(w) <==> is_word(w, alpha, n),
{
    lemma_words_len(alpha, n);
    lemma_words_distinct(alpha, n);
    lemma_words_shape(alpha, n);
    assert forall|w: Seq<char>| #[trigger] words(alpha, n).contains(w) <==> is_word(
        w,
        alpha,
        n,
    ) by {
        if is_word(w, alpha, n) {
            lemma_words_complete(alpha, n, w);
        }
    }
}

/// The strings `r` are what generation returns for these tokens and length.
pub open spec fn generated(elements: Seq<&str>, n: nat, r: Seq<String>) -> bool {
    string_views(r) == words(tokens(elements), n)
}

/// Generating twice from the same tokens and length gives the same set of
/// strings.
pub proof fn lemma_generate_repeatable(elements: Seq<&str>, n: nat, r1: Seq<String>, r2: Seq<String>)
    requires
        generated(elements, n, r1),
        generated(elements, n, r2),
    ensures
        string_views(r1).to_set() == string_views(r2).to_set(),
{
}

/// Every word of `number_values` tokens from `elements`: a token followed by
/// a word one token shorter, for each token and each such word in turn.
pub fn get_permutations_with_repetitions(elements: Vec<&str>, number_values: usize) -> (r: Vec<
    String,
>)
    requires
        number_values >= 2,
    ensures
        generated(elements@, number_values as nat, r@),
        r@.len() == pow(elements@.len() as int, number_values as nat),
{
    let ghost alpha = tokens(elements@);
    let mut perms: Vec<String> = Vec::new();
    let mut i: usize = 0;
    while i < elements.len()
        invariant
            i <= elements.len(),
            alpha == tokens(elements@),
            perms@.len() == i,
            forall|x: int| 0 <= x < i ==> #[trigger] perms@[x]@ == alpha[x],
        decreases elements.len() - i,
    {
        perms.push(elements[i].to_owned());
        i = i + 1;
    }
    proof {
        lemma_words_one(alpha);
        assert(string_views(perms@) =~= words(alpha, 1));
    }
    let mut length: usize = 1;
    while length < number_values
        invariant
            1 <= length <= number_values,
            alpha == tokens(elements@),
            string_views(perms@) == words(alpha, length as nat),
        decreases number_values - length,
    {
        perms = extend_words(&elements, &perms);
        length = length + 1;
    }
    proof {
        lemma_words_len(alpha, number_values as nat);
    }
    perms
}

/// One URL per word, in the same order: the base followed by the word.
pub fn candidate_urls(base: &str, words: &Vec<String>) -> (r: Vec<String>)
    ensures
        r@.len() == words@.len(),
        forall|i: int| 0 <= i < r@.len() ==> #[trigger] r@[i]@ == base@ + words@[i]@,
{
    let mut urls: Vec<String> = Vec::new();
    let mut i: usize = 0;
    while i < words.len()
        invariant
            i <= words.len(),
            urls@.len() == i,
            forall|j: int| 0 <= j < i ==> #[trigger] urls@[j]@ == base@ + words@[j]@,
        decreases words.len() - i,
    {
        urls.push(base.to_owned().concat(words[i].as_str()));
        i = i + 1;
    }
    urls
}

} // verus!
