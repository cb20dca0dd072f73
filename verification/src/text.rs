//! Texts, decimal numbers and slash-separated paths.
use vstd::prelude::*;
use vstd::utf8::valid_utf8;

verus! {

/// The decimal digit of a number below ten.
pub open spec fn digit(d: int) -> char {
    if d == 0 {
        '0'
    } else if d == 1 {
        '1'
    } else if d == 2 {
        '2'
    } else if d == 3 {
        '3'
    } else if d == 4 {
        '4'
    } else if d == 5 {
        '5'
    } else if d == 6 {
        '6'
    } else if d == 7 {
        '7'
    } else if d == 8 {
        '8'
    } else {
        '9'
    }
}

/// The decimal form of a number.
pub open spec fn decimal(n: nat) -> Seq<char>
    decreases n,
{
    if n < 10 {
        seq![digit(n as int)]
    } else {
        decimal(n / 10).push(digit((n % 10) as int))
    }
}

fn digit_text(d: u64) -> (t: &'static str)
    requires
        d < 10,
    ensures
        t@ == seq![digit(d as int)],
{
    proof {
        reveal_strlit("0");
        reveal_strlit("1");
        reveal_strlit("2");
        reveal_strlit("3");
        reveal_strlit("4");
        reveal_strlit("5");
        reveal_strlit("6");
        reveal_strlit("7");
        reveal_strlit("8");
        reveal_strlit("9");
        assert("0"@ =~= seq!['0']);
        assert("1"@ =~= seq!['1']);
        assert("2"@ =~= seq!['2']);
        assert("3"@ =~= seq!['3']);
        assert("4"@ =~= seq!['4']);
        assert("5"@ =~= seq!['5']);
        assert("6"@ =~= seq!['6']);
        assert("7"@ =~= seq!['7']);
        assert("8"@ =~= seq!['8']);
        assert("9"@ =~= seq!['9']);
    }
    if d == 0 {
        "0"
    } else if d == 1 {
        "1"
    } else if d == 2 {
        "2"
    } else if d == 3 {
        "3"
    } else if d == 4 {
        "4"
    } else if d == 5 {
        "5"
    } else if d == 6 {
        "6"
    } else if d == 7 {
        "7"
    } else if d == 8 {
        "8"
    } else {
        "9"
    }
}

/// Different numbers have different decimal forms.
pub proof fn lemma_decimal_injective(a: nat, b: nat)
    ensures
        decimal(a) == decimal(b) ==> a == b,
    decreases a,
{
    if decimal(a) == decimal(b) {
        lemma_decimal_len(a);
        lemma_decimal_len(b);
        if a >= 10 && b >= 10 {
            assert(decimal(a).drop_last() =~= decimal(a / 10));
            assert(decimal(b).drop_last() =~= decimal(b / 10));
            lemma_decimal_injective(a / 10, b / 10);
            assert(decimal(a).last() == decimal(b).last());
        } else {
            assert(decimal(a).last() == decimal(b).last());
        }
    }
}

proof fn lemma_decimal_len(n: nat)
    ensures
        decimal(n).len() >= 1,
        n >= 10 ==> decimal(n).len() >= 2,
    decreases n,
{
    if n >= 10 {
        lemma_decimal_len(n / 10);
    }
}

/// Appends the decimal form of a number.
pub fn append_decimal(s: &mut String, n: u64)
    ensures
        final(s)@ == old(s)@ + decimal(n as nat),
    decreases n,
{
    let ghost start = s@;
    if n >= 10 {
        append_decimal(s, n / 10);
    }
    s.append(digit_text(n % 10));
    assert(s@ =~= start + decimal(n as nat));
}

/// A copy of a text.
pub fn text_copy(s: &str) -> (r: String)
    ensures
        r@ == s@,
{
    String::from_str(s)
}

/// Whether two texts are the same.
pub fn text_same(a: &str, b: &str) -> (r: bool)
    ensures
        r == (a@ == b@),
{
    proof {
        vstd::utf8::encode_utf8_decode_utf8(a@);
        vstd::utf8::encode_utf8_decode_utf8(b@);
    }
    crate::codec::bytes_same(a.as_bytes(), b.as_bytes())
}

/// A path with one more part: the part alone when it starts at the root, else
/// the two with one slash between them.
pub open spec fn joined(base: Seq<char>, part: Seq<char>) -> Seq<char> {
    if part.len() > 0 && part[0] == '/' {
        part
    } else if base.len() == 0 || base.last() == '/' {
        base + part
    } else {
        base + seq!['/'] + part
    }
}

/// Appends a part to a path.
pub fn join_path(base: &str, part: &str) -> (r: String)
    ensures
        r@ == joined(base@, part@),
{
    proof {
        reveal_strlit("/");
        assert("/"@ =~= seq!['/']);
    }
    if !part.is_empty() && part.get_char(0) == '/' {
        return text_copy(part);
    }
    let mut r = text_copy(base);
    let n: usize = base.unicode_len();
    if n > 0 && base.get_char(n - 1) != '/' {
        r.append("/");
    }
    r.append(part);
    assert(r@ =~= joined(base@, part@));
    r
}

/// Whether a text is in a list.
pub open spec fn lists_text(list: Seq<String>, s: Seq<char>) -> bool {
    exists|i: int| 0 <= i < list.len() && (#[trigger] list[i])@ == s
}

/// Whether no text is listed twice.
pub open spec fn all_distinct(list: Seq<String>) -> bool {
    forall|i: int, j: int|
        #![trigger list[i], list[j]]
        0 <= i < j < list.len() ==> list[i]@ != list[j]@
}

/// A text that was not listed is listed once.
pub proof fn lemma_distinct_push(list: Seq<String>, t: String)
    requires
        all_distinct(list),
        !lists_text(list, t@),
    ensures
        all_distinct(list.push(t)),
{
    let p = list.push(t);
    assert forall|i: int, j: int| #![trigger p[i], p[j]] 0 <= i < j < p.len() implies p[i]@ != p[j]@ by {
        assert(p[i] == list[i]);
        if j == list.len() {
            if p[i]@ == t@ {
                assert(list[i]@ == t@);
            }
        }
    }
}

/// Adds a text to a list unless it is in it.
pub(crate) fn add_text(out: &mut Vec<String>, text: &String)
    requires
        forall|i: int, j: int| 0 <= i < j < old(out)@.len() ==> old(out)@[i]@ != old(out)@[j]@,
    ensures
        forall|i: int, j: int|
            0 <= i < j < final(out)@.len() ==> final(out)@[i]@ != final(out)@[j]@,
        forall|s: Seq<char>| #[trigger]
            lists_text(final(out)@, s) <==> lists_text(old(out)@, s) || s == text@,
{
    let ghost start = out@;
    let mut i: usize = 0;
    while i < out.len()
        invariant
            out@ == start,
            i <= out@.len(),
            forall|a: int, b: int| 0 <= a < b < out@.len() ==> out@[a]@ != out@[b]@,
            forall|a: int| 0 <= a < i ==> (#[trigger] out@[a])@ != text@,
        decreases out@.len() - i,
    {
        if text_same(out[i].as_str(), text.as_str()) {
            assert(out@[i as int]@ == text@);
            return;
        }
        i = i + 1;
    }
    out.push(text.clone());
    proof {
        assert forall|s: Seq<char>| #[trigger] lists_text(out@, s) <==> lists_text(start, s) || s
            == text@ by {
            if lists_text(start, s) {
                let k = choose|k: int| 0 <= k < start.len() && (#[trigger] start[k])@ == s;
                assert(out@[k]@ == s);
            }
            if s == text@ {
                assert(out@[start.len() as int]@ == s);
            }
            if lists_text(out@, s) {
                let k = choose|k: int| 0 <= k < out@.len() && (#[trigger] out@[k])@ == s;
                if k < start.len() {
                    assert(start[k]@ == s);
                }
            }
        }
    }
}

/// `std::str::from_utf8`: it accepts exactly the bytes that are valid UTF-8.
#[verifier::external_body]
pub(crate) fn is_utf8(bytes: &[u8]) -> (r: bool)
    ensures
        r == valid_utf8(bytes@),
{
    std::str::from_utf8(bytes).is_ok()
}

} // verus!
