//! Generated wire names.
use vstd::prelude::*;

verus! {

/// The name of the `n`-th generated wire: the base-26 digits of `n`, least
/// significant first, each written as a lower-case letter (`0` is `"a"`,
/// `25` is `"z"`, `26` is `"ab"`).
pub open spec fn spec_num_to_name(n: nat) -> Seq<char>
    decreases n,
{
    let c = ((n % 26) + 97) as char;
    if n / 26 == 0 {
        seq![c]
    } else {
        seq![c] + spec_num_to_name(n / 26)
    }
}

/// Distinct wire numbers get distinct names.
pub proof fn lemma_num_to_name_injective(a: nat, b: nat)
    requires
        spec_num_to_name(a) == spec_num_to_name(b),
    ensures
        a == b,
    decreases a,
{
    let sa = spec_num_to_name(a);
    let sb = spec_num_to_name(b);
    assert(sa[0] == ((a % 26) + 97) as char);
    assert(sb[0] == ((b % 26) + 97) as char);
    assert(((a % 26) + 97) as char == ((b % 26) + 97) as char);
    assert(a % 26 == b % 26);
    if a / 26 == 0 {
        if b / 26 != 0 {
            assert(sb.len() > 1);
        }
    } else {
        if b / 26 == 0 {
            assert(sa.len() > 1);
        } else {
            assert(spec_num_to_name(a / 26) =~= sa.subrange(1, sa.len() as int));
            assert(spec_num_to_name(b / 26) =~= sb.subrange(1, sb.len() as int));
            lemma_num_to_name_injective(a / 26, b / 26);
        }
    }
}

/// Appends a character to a string: a call of `String::push`, which the
/// standard library documents as appending the given `char` to the end of
/// the string; the contract states exactly that.
#[verifier::external_body]
fn string_push(s: &mut String, c: char)
    ensures
        final(s)@ == old(s)@.push(c),
{
    s.push(c);
}

/// Writes the name of the `num`-th generated wire.
pub fn num_to_name(num: u64) -> (name: String)
    ensures
        name@ == spec_num_to_name(num as nat),
{
    let mut name = String::new();
    let mut num = num;
    let ghost orig = num as nat;
    loop
        invariant_except_break
            spec_num_to_name(orig) == name@ + spec_num_to_name(num as nat),
        ensures
            name@ == spec_num_to_name(orig),
        decreases num,
    {
        let ghost old_name = name@;
        let ghost old_num = num as nat;
        let d: u8 = (num % 26) as u8;
        let c: char = (97u8 + d) as char;
        assert(c == ((old_num % 26) + 97) as char);
        string_push(&mut name, c);
        num = num / 26;
        if num == 0 {
            assert(spec_num_to_name(old_num) =~= seq![c]);
            assert(name@ =~= old_name + spec_num_to_name(old_num));
            break ;
        }
        assert(spec_num_to_name(old_num) =~= seq![c] + spec_num_to_name(num as nat));
        assert(name@ + spec_num_to_name(num as nat) =~= old_name + spec_num_to_name(old_num));
    }
    name
}

} // verus!
