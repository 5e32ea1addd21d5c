use vstd::prelude::*;

use crate::window;
use crate::window::Window;

verus! {

/// A number in decimal reads back as the number: it consists of digits, begins
/// with 0 only where it is 0, and has the value of its digits.
pub proof fn law_decimal_reads_back(n: nat)
    ensures
        window::decimal(n).len() > 0,
        forall|i: int|
            0 <= i < window::decimal(n).len() ==> 48 <= #[trigger] window::decimal(n)[i] as int
                <= 57,
        window::decimal(n).len() > 1 ==> window::decimal(n)[0] != '0',
        window::decimal(n).fold_left(
            0int,
            |value: int, c: char| 10 * value + (c as int - 48),
        ) == n,
    decreases n,
{
    let all = window::decimal(n);
    let read = |value: int, c: char| 10 * value + (c as int - 48);
    reveal_with_fuel(Seq::fold_left, 2);
    if n < 10 {
        assert(all.drop_last() =~= Seq::empty());
        assert(all.last() as int == 48 + n);
        assert(all.fold_left(0int, read) == read(0, all.last()));
    } else {
        let front = window::decimal(n / 10);
        law_decimal_reads_back(n / 10);
        lemma_not_zero(n / 10);
        assert(all.drop_last() =~= front);
        assert(all.last() as int == 48 + n % 10);
        assert(all.fold_left(0int, read) == read(front.fold_left(0int, read), all.last()));
        assert(all[0] == front[0]);
        assert forall|i: int| 0 <= i < all.len() implies 48 <= #[trigger] all[i] as int <= 57 by {
            if i < front.len() {
                assert(all[i] == front[i]);
            }
        }
    }
}

/// A positive number in decimal does not begin with 0.
proof fn lemma_not_zero(n: nat)
    requires
        n > 0,
    ensures
        window::decimal(n).len() > 0,
        window::decimal(n)[0] != '0',
    decreases n,
{
    if n >= 10 {
        lemma_not_zero(n / 10);
    }
}

/// A negative number is written as a minus sign before its absolute value.
pub proof fn law_sign_comes_first(n: int)
    ensures
        n < 0 ==> window::signed_decimal(n) == seq!['-'] + window::decimal((-n) as nat),
        n >= 0 ==> window::signed_decimal(n) == window::decimal(n as nat),
{
}

/// The text of a window has its start and its end in seconds, in that order,
/// within the brackets of a half-open interval.
pub proof fn law_window_text_names_its_bounds(window: Window)
    ensures
        window.text() == seq!['['] + window::signed_decimal(window.start as int) + seq![
            's',
            '-',
        ] + window::signed_decimal(window.end as int) + seq!['s', ')'],
{
}

} // verus!
