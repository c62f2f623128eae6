//! Small helpers for printing.

use vstd::prelude::*;
use crate::ctx::{Ctx, VarId};
use crate::text::push_text;
use crate::var::{Uniq, VarModel};

verus! {

/// Whether a comma stands before the character at index `i`, when the
/// first group holds `start` characters.
pub open spec fn comma_before(i: int, start: int) -> bool {
    i >= start && (i - start) % 3 == 0
}

/// How many characters the first group holds, of a string that is `len`
/// bytes long: what is left over after groups of three, or three.
pub open spec fn first_group(len: nat) -> int {
    if len % 3 == 0 {
        3
    } else {
        (len % 3) as int
    }
}

/// The first `n` characters of `cs`, with the commas that stand before
/// them.
pub open spec fn grouped(cs: Seq<char>, start: int, n: int) -> Seq<char>
    decreases n,
{
    if n <= 0 {
        Seq::empty()
    } else if comma_before(n - 1, start) {
        grouped(cs, start, n - 1).push(',').push(cs[n - 1])
    } else {
        grouped(cs, start, n - 1).push(cs[n - 1])
    }
}

/// Groups the characters of `s` by three, from the right, with commas
/// between the groups: `1234567` becomes `1,234,567`. The size of the first
/// group goes by the length of `s` in bytes.
pub fn comma_sep(s: &str) -> (ret: String)
    ensures
        ret@ == grouped(s@, first_group(s.len() as nat), s@.len() as int),
{
    let s_len = s.len();
    let mut ret = String::new();
    let mut count: usize = s_len % 3;
    if count == 0 {
        count = 3;
    }
    let ghost start = first_group(s_len as nat);
    for c in it: s.chars()
        invariant
            it.seq() == s@,
            1 <= start <= 3,
            ret@ == grouped(s@, start, it.index()),
            count <= 3,
            it.index() < start ==> count == start - it.index(),
            it.index() >= start ==> count == (3 - (it.index() - start) % 3) % 3,
    {
        if count == 0 {
            ret.push(',');
            count = 3;
        }
        ret.push(c);
        count -= 1;
    }
    ret
}

/// The texts of the first `n` variables of `args`, with `, ` between them.
pub open spec fn arg_list_text(ctx: Seq<VarModel>, args: Seq<VarId>, n: int) -> Seq<char>
    decreases n,
{
    if n <= 0 {
        Seq::empty()
    } else if n == 1 {
        ctx[args[0] as int].text()
    } else {
        arg_list_text(ctx, args, n - 1) + ", "@ + ctx[args[n - 1] as int].text()
    }
}

/// Shows a list of variables of the table `ctx`: their texts between square
/// brackets, with `, ` between them.
pub fn show_arg_list(ctx: &Ctx, args: &[VarId]) -> (s: String)
    requires
        forall|i: int| 0 <= i < args@.len() ==> args@[i] < ctx@.len(),
    ensures
        s@ == "["@ + arg_list_text(ctx@, args@, args@.len() as int) + "]"@,
{
    let mut s = String::new();
    s.push('[');
    proof {
        reveal_strlit("[");
        reveal_strlit("]");
        assert(s@ =~= "["@ + arg_list_text(ctx@, args@, 0));
    }
    let mut i: usize = 0;
    while i < args.len()
        invariant
            i <= args@.len(),
            forall|i: int| 0 <= i < args@.len() ==> args@[i] < ctx@.len(),
            s@ == "["@ + arg_list_text(ctx@, args@, i as int),
        decreases args@.len() - i,
    {
        if i > 0 {
            push_text(&mut s, ", ");
        }
        let text = ctx.get_var(args[i]).to_string();
        push_text(&mut s, text.as_str());
        i += 1;
        assert(s@ =~= "["@ + arg_list_text(ctx@, args@, i as int));
    }
    s.push(']');
    assert(s@ =~= "["@ + arg_list_text(ctx@, args@, args@.len() as int) + "]"@);
    s
}

/// The sixty-two characters that a tag is encoded with.
pub open spec fn base62_chars() -> Seq<char> {
    "0123456789abcdefghijklmnopqrstuvwxyzABCDEFGHIJKLMNOPQRSTUVWXYZ"@
}

/// The encoding of `n`: its digits to the base 62, lowest first, up to the
/// first digit that is zero.
pub open spec fn base62(n: nat) -> Seq<char>
    decreases n,
{
    if n % 62 == 0 {
        Seq::empty()
    } else {
        seq![base62_chars()[(n % 62) as int]] + base62(n / 62)
    }
}

/// Appends the encoding of the tag `uniq` to `w`.
pub fn base62_encode(uniq: Uniq, w: &mut String)
    ensures
        final(w)@ == old(w)@ + base62(uniq.value() as nat),
{
    let uniq = uniq.get();
    let mut i = uniq % 62;
    let mut r = uniq / 62;
    let ghost mut m: nat = uniq as nat;
    let ghost mut done: Seq<char> = Seq::empty();
    assert(w@ =~= old(w)@ + done);
    assert(done + base62(m) =~= base62(uniq as nat));
    proof {
        reveal_strlit("0123456789abcdefghijklmnopqrstuvwxyzABCDEFGHIJKLMNOPQRSTUVWXYZ");
    }
    while i != 0
        invariant
            i == m % 62,
            r == m / 62,
            base62_chars().len() == 62,
            w@ == old(w)@ + done,
            done + base62(m) == base62(uniq as nat),
        decreases m,
    {
        let c = "0123456789abcdefghijklmnopqrstuvwxyzABCDEFGHIJKLMNOPQRSTUVWXYZ".get_char(
            i as usize,
        );
        w.push(c);
        proof {
            let done2 = done.push(c);
            assert(w@ =~= old(w)@ + done2);
            assert(done2 + base62(m / 62) =~= done + base62(m));
            m = m / 62;
            done = done2;
        }
        i = r % 62;
        r = r / 62;
    }
    assert(done + base62(m) =~= done);
}

} // verus!
