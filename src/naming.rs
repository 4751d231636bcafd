use vstd::prelude::*;
use vstd::set_lib::{lemma_int_range, lemma_len_subset, lemma_map_size, set_int_range};

verus! {

/// The character of decimal digit `d`.
pub open spec fn digit_char(d: nat) -> char {
    if d == 0 {
        '0'
    } else if d == 1 {
        '1'
    } else if d == 2 {
        '2'
    } else if d == 3 {
        '3'
    } else if d == 4 {
        '4'
    } else if d == 5 {
        '5'
    } else if d == 6 {
        '6'
    } else if d == 7 {
        '7'
    } else if d == 8 {
        '8'
    } else {
        '9'
    }
}

/// `n` written in decimal, without leading zeros.
pub open spec fn decimal(n: nat) -> Seq<char>
    decreases n,
{
    if n < 10 {
        seq![digit_char(n)]
    } else {
        decimal(n / 10).push(digit_char(n % 10))
    }
}

/// The name of the image file that carries number `n`.
pub open spec fn image_file_name(n: nat) -> Seq<char> {
    decimal(n) + seq!['.', 'p', 'n', 'g']
}

/// Whether some entry of `names` reads `name`.
pub open spec fn name_taken(names: Seq<String>, name: Seq<char>) -> bool {
    exists|i: int| 0 <= i < names.len() && #[trigger] names[i]@ == name
}

/// `k` is the least number whose image file name is not among `names`.
pub open spec fn is_least_free(names: Seq<String>, k: nat) -> bool {
    &&& !name_taken(names, image_file_name(k))
    &&& forall|j: nat| j < k ==> name_taken(names, #[trigger] image_file_name(j))
}

proof fn lemma_digit_char_injective(a: nat, b: nat)
    requires
        a < 10,
        b < 10,
        digit_char(a) == digit_char(b),
    ensures
        a == b,
{
}

proof fn lemma_decimal_len(n: nat)
    ensures
        decimal(n).len() >= 1,
        n >= 10 ==> decimal(n).len() >= 2,
    decreases n,
{
    if n >= 10 {
        lemma_decimal_len(n / 10);
    }
}

proof fn lemma_decimal_injective(a: nat, b: nat)
    requires
        decimal(a) == decimal(b),
    ensures
        a == b,
    decreases a,
{
    lemma_decimal_len(a);
    lemma_decimal_len(b);
    if a < 10 && b < 10 {
        assert(decimal(a) == seq![digit_char(a)]);
        assert(decimal(b) == seq![digit_char(b)]);
        assert(seq![digit_char(a)][0] == digit_char(a));
        assert(seq![digit_char(b)][0] == digit_char(b));
        lemma_digit_char_injective(a, b);
    } else if a >= 10 && b >= 10 {
        let da = decimal(a);
        let db = decimal(b);
        assert(da.last() == db.last());
        lemma_digit_char_injective(a % 10, b % 10);
        assert(da.drop_last() =~= decimal(a / 10));
        assert(db.drop_last() =~= decimal(b / 10));
        lemma_decimal_injective(a / 10, b / 10);
    }
}

proof fn lemma_image_file_name_injective(a: nat, b: nat)
    requires
        image_file_name(a) == image_file_name(b),
    ensures
        a == b,
{
    let fa = image_file_name(a);
    let fb = image_file_name(b);
    assert(fa.subrange(0, fa.len() - 4) =~= decimal(a));
    assert(fb.subrange(0, fb.len() - 4) =~= decimal(b));
    lemma_decimal_injective(a, b);
}

/// Among the names of numbers `0..=names.len()`, at least one is not taken.
proof fn lemma_some_name_free(names: Seq<String>)
    ensures
        exists|k: nat| k <= names.len() && !name_taken(names, #[trigger] image_file_name(k)),
{
    if forall|k: nat| k <= names.len() ==> name_taken(names, #[trigger] image_file_name(k)) {
        let n = names.len() as int;
        let views = names.map_values(|s: String| s@);
        let f = |i: int| image_file_name(i as nat);
        let range = set_int_range(0, n + 1);
        lemma_int_range(0, n + 1);
        assert forall|x: int, y: int|
            range.contains(x) && range.contains(y) && #[trigger] f(x) == #[trigger] f(y) implies x
            == y by {
            lemma_image_file_name_injective(x as nat, y as nat);
        }
        lemma_map_size(range, range.map(f), f);
        assert forall|s: Seq<char>| range.map(f).contains(s) implies views.to_set().contains(s) by {
            let i = choose|i: int| range.contains(i) && f(i) == s;
            assert(name_taken(names, image_file_name(i as nat)));
            let j = choose|j: int| 0 <= j < names.len() && #[trigger] names[j]@ == image_file_name(
                i as nat,
            );
            assert(views[j] == s);
        }
        views.lemma_cardinality_of_set();
        lemma_len_subset(range.map(f), views.to_set());
    }
}

fn digit_str(d: u64) -> (r: &'static str)
    requires
        d < 10,
    ensures
        r@ == seq![digit_char(d as nat)],
{
    proof {
        reveal_strlit("0");
        reveal_strlit("1");
        reveal_strlit("2");
        reveal_strlit("3");
        reveal_strlit("4");
        reveal_strlit("5");
        reveal_strlit("6");
        reveal_strlit("7");
        reveal_strlit("8");
        reveal_strlit("9");
    }
    if d == 0 {
        "0"
    } else if d == 1 {
        "1"
    } else if d == 2 {
        "2"
    } else if d == 3 {
        "3"
    } else if d == 4 {
        "4"
    } else if d == 5 {
        "5"
    } else if d == 6 {
        "6"
    } else if d == 7 {
        "7"
    } else if d == 8 {
        "8"
    } else {
        "9"
    }
}

/// `n` written in decimal.
pub fn to_decimal(n: u64) -> (r: String)
    ensures
        r@ == decimal(n as nat),
    decreases n,
{
    if n < 10 {
        digit_str(n).to_owned()
    } else {
        let mut s = to_decimal(n / 10);
        s.append(digit_str(n % 10));
        s
    }
}

fn is_taken(names: &Vec<String>, name: &String) -> (r: bool)
    ensures
        r == name_taken(names@, name@),
{
    let mut i: usize = 0;
    while i < names.len()
        invariant
            i <= names@.len(),
            forall|j: int| 0 <= j < i ==> names@[j]@ != name@,
        decreases names@.len() - i,
    {
        if names[i] == *name {
            return true;
        }
        i = i + 1;
    }
    false
}

fn image_file_name_of(k: u64) -> (r: String)
    ensures
        r@ == image_file_name(k as nat),
{
    let mut file = to_decimal(k);
    proof {
        reveal_strlit(".png");
    }
    file.append(".png");
    assert(file@ =~= image_file_name(k as nat));
    file
}

/// The number, in decimal, of the first image file that does not exist yet:
/// the least `k` such that `"<k>.png"` is none of `existing`, the names of the
/// files already in the image directory.
pub fn create_unused_filename(existing: &Vec<String>) -> (r: String)
    ensures
        exists|k: nat| #[trigger] is_least_free(existing@, k) && r@ == decimal(k),
{
    proof {
        lemma_some_name_free(existing@);
    }
    let n: usize = existing.len();
    let mut k: usize = 0;
    while k < n
        invariant
            n == existing@.len(),
            k <= n,
            forall|j: nat| j < k ==> name_taken(existing@, #[trigger] image_file_name(j)),
        decreases n - k,
    {
        if !is_taken(existing, &image_file_name_of(k as u64)) {
            assert(is_least_free(existing@, k as nat));
            return to_decimal(k as u64);
        }
        k = k + 1;
    }
    let taken = is_taken(existing, &image_file_name_of(n as u64));
    proof {
        if taken {
            let k0 = choose|k0: nat|
                k0 <= existing@.len() && !name_taken(existing@, #[trigger] image_file_name(k0));
            assert(k0 < n || k0 == n);
        }
        assert(is_least_free(existing@, n as nat));
    }
    to_decimal(n as u64)
}

} // verus!
