//! Certificates for the primes behind the base fields of the curves.
//!
//! A certificate names an element of a prime's field and the one or two primes that
//! its order is made of, which are certified in turn. The powers of the element are
//! worked out two bits of the exponent at a time.
use crate::field;
use crate::pasta;
use crate::primality;
use vstd::arithmetic::power::lemma_pow0;
use vstd::arithmetic::power::pow;
use vstd::prelude::*;

verus! {

proof fn lemma_prime_509()
    ensures
        field::is_prime(509),
{
    assert(forall|d: u32| 1 < d <= 22 ==> primality::leaves_rest(509, d)) by (bit_vector);
    primality::lemma_prime_by_trial(509, 22);
}

proof fn lemma_prime_977()
    ensures
        field::is_prime(977),
{
    assert(forall|d: u32| 1 < d <= 31 ==> primality::leaves_rest(977, d)) by (bit_vector);
    primality::lemma_prime_by_trial(977, 31);
}

proof fn lemma_prime_19()
    ensures
        field::is_prime(19),
{
    assert(forall|d: u32| 1 < d <= 4 ==> primality::leaves_rest(19, d)) by (bit_vector);
    primality::lemma_prime_by_trial(19, 4);
}

proof fn lemma_prime_757()
    ensures
        field::is_prime(757),
{
    assert(forall|d: u32| 1 < d <= 27 ==> primality::leaves_rest(757, d)) by (bit_vector);
    primality::lemma_prime_by_trial(757, 27);
}

proof fn lemma_prime_6091()
    ensures
        field::is_prime(6091),
{
    assert(forall|d: u32| 1 < d <= 78 ==> primality::leaves_rest(6091, d)) by (bit_vector);
    primality::lemma_prime_by_trial(6091, 78);
}

proof fn lemma_prime_24859()
    ensures
        field::is_prime(24859),
{
    assert(forall|d: u32| 1 < d <= 157 ==> primality::leaves_rest(24859, d)) by (bit_vector);
    primality::lemma_prime_by_trial(24859, 157);
}

proof fn lemma_prime_25741()
    ensures
        field::is_prime(25741),
{
    assert(forall|d: u32| 1 < d <= 160 ==> primality::leaves_rest(25741, d)) by (bit_vector);
    primality::lemma_prime_by_trial(25741, 160);
}

proof fn lemma_prime_31649()
    ensures
        field::is_prime(31649),
{
    assert(forall|d: u32| 1 < d <= 177 ==> primality::leaves_rest(31649, d)) by (bit_vector);
    primality::lemma_prime_by_trial(31649, 177);
}

spec fn root_of_772231() -> nat {
    340734
}

proof fn lemma_power_in_772231()
    ensures
        pow(root_of_772231() as int, 25741) % (772231 as int) == 1,
{
    lemma_pow0(root_of_772231() as int);
    let e = 0nat;
    let e = primality::lemma_window(772231, root_of_772231(), e, 1, 1, 340734);
    let e = primality::lemma_window(772231, root_of_772231(), e, 340734, 2, 548610);
    let e = primality::lemma_window(772231, root_of_772231(), e, 548610, 1, 330491);
    let e = primality::lemma_window(772231, root_of_772231(), e, 330491, 0, 311379);
    let e = primality::lemma_window(772231, root_of_772231(), e, 311379, 2, 581092);
    let e = primality::lemma_window(772231, root_of_772231(), e, 581092, 0, 605601);
    let e = primality::lemma_window(772231, root_of_772231(), e, 605601, 3, 197578);
    let e = primality::lemma_window(772231, root_of_772231(), e, 197578, 1, 1);
}

proof fn lemma_prime_772231()
    ensures
        field::is_prime(772231),
{
    lemma_prime_25741();
    lemma_power_in_772231();
    primality::lemma_prime_by_order(772231, root_of_772231() as int, 25741, 734600);
}

spec fn root_of_5701177() -> nat {
    2594431
}

proof fn lemma_power_in_5701177()
    ensures
        pow(root_of_5701177() as int, 6091) % (5701177 as int) == 1,
{
    lemma_pow0(root_of_5701177() as int);
    let e = 0nat;
    let e = primality::lemma_window(5701177, root_of_5701177(), e, 1, 1, 2594431);
    let e = primality::lemma_window(5701177, root_of_5701177(), e, 2594431, 1, 825188);
    let e = primality::lemma_window(5701177, root_of_5701177(), e, 825188, 3, 1164659);
    let e = primality::lemma_window(5701177, root_of_5701177(), e, 1164659, 3, 643518);
    let e = primality::lemma_window(5701177, root_of_5701177(), e, 643518, 0, 1998381);
    let e = primality::lemma_window(5701177, root_of_5701177(), e, 1998381, 2, 1729279);
    let e = primality::lemma_window(5701177, root_of_5701177(), e, 1729279, 3, 1);
}

proof fn lemma_prime_5701177()
    ensures
        field::is_prime(5701177),
{
    lemma_prime_6091();
    lemma_power_in_5701177();
    primality::lemma_prime_by_order(5701177, root_of_5701177() as int, 6091, 280676);
}

spec fn root_of_6942563() -> nat {
    1075611
}

spec fn power_in_6942563() -> nat {
    1534969
}

proof fn lemma_first_power_in_6942563()
    ensures
        pow(root_of_6942563() as int, 977) % (6942563 as int) == 1534969,
{
    lemma_pow0(root_of_6942563() as int);
    let e = 0nat;
    let e = primality::lemma_window(6942563, root_of_6942563(), e, 1, 3, 1093298);
    let e = primality::lemma_window(6942563, root_of_6942563(), e, 1093298, 3, 4771822);
    let e = primality::lemma_window(6942563, root_of_6942563(), e, 4771822, 1, 5313028);
    let e = primality::lemma_window(6942563, root_of_6942563(), e, 5313028, 0, 2898181);
    let e = primality::lemma_window(6942563, root_of_6942563(), e, 2898181, 1, 1534969);
}

proof fn lemma_both_powers_in_6942563()
    ensures
        pow(power_in_6942563() as int, 19) % (6942563 as int) == 1,
{
    lemma_pow0(power_in_6942563() as int);
    let e = 0nat;
    let e = primality::lemma_window(6942563, power_in_6942563(), e, 1, 1, 1534969);
    let e = primality::lemma_window(6942563, power_in_6942563(), e, 1534969, 0, 1450947);
    let e = primality::lemma_window(6942563, power_in_6942563(), e, 1450947, 3, 1);
}

proof fn lemma_second_power_in_6942563()
    ensures
        pow(root_of_6942563() as int, 19) % (6942563 as int) == 5061822,
{
    lemma_pow0(root_of_6942563() as int);
    let e = 0nat;
    let e = primality::lemma_window(6942563, root_of_6942563(), e, 1, 1, 1075611);
    let e = primality::lemma_window(6942563, root_of_6942563(), e, 1075611, 0, 4263886);
    let e = primality::lemma_window(6942563, root_of_6942563(), e, 4263886, 3, 5061822);
}

proof fn lemma_prime_6942563()
    ensures
        field::is_prime(6942563),
{
    lemma_prime_977();
    lemma_prime_19();
    lemma_first_power_in_6942563();
    lemma_both_powers_in_6942563();
    lemma_second_power_in_6942563();
    primality::lemma_power_of_power(6942563, root_of_6942563(), 977, power_in_6942563(), 19, 1);
    primality::lemma_prime_by_two_orders(6942563, root_of_6942563() as int, 977, 19, 18563, 2039071, 1778843);
}

spec fn root_of_41655379() -> nat {
    64
}

proof fn lemma_power_in_41655379()
    ensures
        pow(root_of_41655379() as int, 6942563) % (41655379 as int) == 1,
{
    lemma_pow0(root_of_41655379() as int);
    let e = 0nat;
    let e = primality::lemma_window(41655379, root_of_41655379(), e, 1, 1, 64);
    let e = primality::lemma_window(41655379, root_of_41655379(), e, 64, 2, 0x1c60d5d);
    let e = primality::lemma_window(41655379, root_of_41655379(), e, 0x1c60d5d, 2, 0xe324f4);
    let e = primality::lemma_window(41655379, root_of_41655379(), e, 0xe324f4, 1, 0x1b1549d);
    let e = primality::lemma_window(41655379, root_of_41655379(), e, 0x1b1549d, 3, 0x221a770);
    let e = primality::lemma_window(41655379, root_of_41655379(), e, 0x221a770, 2, 0x106cf1f);
    let e = primality::lemma_window(41655379, root_of_41655379(), e, 0x106cf1f, 3, 0xd5780d);
    let e = primality::lemma_window(41655379, root_of_41655379(), e, 0xd5780d, 3, 2004257);
    let e = primality::lemma_window(41655379, root_of_41655379(), e, 2004257, 1, 3750359);
    let e = primality::lemma_window(41655379, root_of_41655379(), e, 3750359, 2, 0x247eb4d);
    let e = primality::lemma_window(41655379, root_of_41655379(), e, 0x247eb4d, 0, 0x21fe848);
    let e = primality::lemma_window(41655379, root_of_41655379(), e, 0x21fe848, 3, 1);
}

proof fn lemma_prime_41655379()
    ensures
        field::is_prime(41655379),
{
    lemma_prime_6942563();
    lemma_power_in_41655379();
    primality::lemma_prime_by_order(41655379, root_of_41655379() as int, 6942563, 1322393);
}

spec fn root_of_399082391() -> nat {
    0x58c326e
}

proof fn lemma_power_in_399082391()
    ensures
        pow(root_of_399082391() as int, 5701177) % (399082391 as int) == 1,
{
    lemma_pow0(root_of_399082391() as int);
    let e = 0nat;
    let e = primality::lemma_window(399082391, root_of_399082391(), e, 1, 1, 0x58c326e);
    let e = primality::lemma_window(399082391, root_of_399082391(), e, 0x58c326e, 1, 0x14151b05);
    let e = primality::lemma_window(399082391, root_of_399082391(), e, 0x14151b05, 1, 0xc7e612a);
    let e = primality::lemma_window(399082391, root_of_399082391(), e, 0xc7e612a, 2, 0x4a67c5a);
    let e = primality::lemma_window(399082391, root_of_399082391(), e, 0x4a67c5a, 3, 0xa54f48a);
    let e = primality::lemma_window(399082391, root_of_399082391(), e, 0xa54f48a, 3, 0x1147017d);
    let e = primality::lemma_window(399082391, root_of_399082391(), e, 0x1147017d, 3, 0x4155c23);
    let e = primality::lemma_window(399082391, root_of_399082391(), e, 0x4155c23, 2, 0x2e7680c);
    let e = primality::lemma_window(399082391, root_of_399082391(), e, 0x2e7680c, 0, 0xcea23c2);
    let e = primality::lemma_window(399082391, root_of_399082391(), e, 0xcea23c2, 3, 0x7adde0c);
    let e = primality::lemma_window(399082391, root_of_399082391(), e, 0x7adde0c, 2, 0x159c5d08);
    let e = primality::lemma_window(399082391, root_of_399082391(), e, 0x159c5d08, 1, 1);
}

proof fn lemma_prime_399082391()
    ensures
        field::is_prime(399082391),
{
    lemma_prime_5701177();
    lemma_power_in_399082391();
    primality::lemma_prime_by_order(399082391, root_of_399082391() as int, 5701177, 0x6753ec3);
}

spec fn prime_of_35_bits() -> nat {
    0x528e0dc7dnat
}

spec fn root_of_35_bits() -> nat {
    0x402309d30nat
}

proof fn raise_root_35_bits(e: nat, x: nat, d: nat, y: nat) -> (f: nat)
    requires
        pow(root_of_35_bits() as int, e) % (prime_of_35_bits() as int) == x,
        d < 4,
        d == 0 ==> (x * x * x * x) % prime_of_35_bits() == y,
        d == 1 ==> (x * x * x * x * root_of_35_bits()) % prime_of_35_bits() == y,
        d == 2 ==> (x * x * x * x * root_of_35_bits() * root_of_35_bits()) % prime_of_35_bits() == y,
        d == 3 ==> (x * x * x * x * root_of_35_bits() * root_of_35_bits() * root_of_35_bits()) % prime_of_35_bits() == y,
    ensures
        f == 4 * e + d,
        pow(root_of_35_bits() as int, f) % (prime_of_35_bits() as int) == y,
{
    primality::lemma_window(prime_of_35_bits(), root_of_35_bits(), e, x, d, y)
}

proof fn lemma_power_in_35_bits()
    ensures
        pow(root_of_35_bits() as int, 41655379) % (prime_of_35_bits() as int) == 1,
{
    lemma_pow0(root_of_35_bits() as int);
    let e = 0nat;
    let e = raise_root_35_bits(e, 1, 2, 0x1207af508nat);
    let e = raise_root_35_bits(e, 0x1207af508nat, 1, 0x14299a7a5nat);
    let e = raise_root_35_bits(e, 0x14299a7a5nat, 3, 0xd50dd446nat);
    let e = raise_root_35_bits(e, 0xd50dd446nat, 2, 0x16e5e7652nat);
    let e = raise_root_35_bits(e, 0x16e5e7652nat, 3, 0x1e4d0fde9nat);
    let e = raise_root_35_bits(e, 0x1e4d0fde9nat, 2, 0x2b52e3793nat);
    let e = raise_root_35_bits(e, 0x2b52e3793nat, 1, 0x3913278f4nat);
    let e = raise_root_35_bits(e, 0x3913278f4nat, 3, 0x1dd9e2141nat);
    let e = raise_root_35_bits(e, 0x1dd9e2141nat, 0, 0x4de34a0b3nat);
    let e = raise_root_35_bits(e, 0x4de34a0b3nat, 1, 0x1301ea00anat);
    let e = raise_root_35_bits(e, 0x1301ea00anat, 1, 0x4d547e338nat);
    let e = raise_root_35_bits(e, 0x4d547e338nat, 0, 0x5083ae44cnat);
    let e = raise_root_35_bits(e, 0x5083ae44cnat, 3, 1);
}

proof fn lemma_prime_35_bits()
    ensures
        field::is_prime(prime_of_35_bits()),
{
    lemma_prime_41655379();
    lemma_power_in_35_bits();
    primality::lemma_prime_by_order(prime_of_35_bits(), root_of_35_bits() as int, 41655379, 0x3e52cd804int);
}

spec fn prime_of_43_bits() -> nat {
    0x4c3db7b60c3nat
}

spec fn root_of_43_bits() -> nat {
    0x29555af4dednat
}

spec fn power_in_43_bits() -> nat {
    0x2640855b824nat
}

proof fn raise_root_43_bits(e: nat, x: nat, d: nat, y: nat) -> (f: nat)
    requires
        pow(root_of_43_bits() as int, e) % (prime_of_43_bits() as int) == x,
        d < 4,
        d == 0 ==> (x * x * x * x) % prime_of_43_bits() == y,
        d == 1 ==> (x * x * x * x * root_of_43_bits()) % prime_of_43_bits() == y,
        d == 2 ==> (x * x * x * x * root_of_43_bits() * root_of_43_bits()) % prime_of_43_bits() == y,
        d == 3 ==> (x * x * x * x * root_of_43_bits() * root_of_43_bits() * root_of_43_bits()) % prime_of_43_bits() == y,
    ensures
        f == 4 * e + d,
        pow(root_of_43_bits() as int, f) % (prime_of_43_bits() as int) == y,
{
    primality::lemma_window(prime_of_43_bits(), root_of_43_bits(), e, x, d, y)
}

proof fn lemma_first_power_in_43_bits()
    ensures
        pow(root_of_43_bits() as int, 31649) % (prime_of_43_bits() as int) == 0x2640855b824nat,
{
    lemma_pow0(root_of_43_bits() as int);
    let e = 0nat;
    let e = raise_root_43_bits(e, 1, 1, 0x29555af4dednat);
    let e = raise_root_43_bits(e, 0x29555af4dednat, 3, 0x1e6fb34adf9nat);
    let e = raise_root_43_bits(e, 0x1e6fb34adf9nat, 2, 0x2483028da80nat);
    let e = raise_root_43_bits(e, 0x2483028da80nat, 3, 0x4508c417c0fnat);
    let e = raise_root_43_bits(e, 0x4508c417c0fnat, 2, 0x43923bc3f5anat);
    let e = raise_root_43_bits(e, 0x43923bc3f5anat, 2, 0x20fdd365510nat);
    let e = raise_root_43_bits(e, 0x20fdd365510nat, 0, 0x17b79ec7422nat);
    let e = raise_root_43_bits(e, 0x17b79ec7422nat, 1, 0x2640855b824nat);
}

proof fn raise_power_43_bits(e: nat, x: nat, d: nat, y: nat) -> (f: nat)
    requires
        pow(power_in_43_bits() as int, e) % (prime_of_43_bits() as int) == x,
        d < 4,
        d == 0 ==> (x * x * x * x) % prime_of_43_bits() == y,
        d == 1 ==> (x * x * x * x * power_in_43_bits()) % prime_of_43_bits() == y,
        d == 2 ==> (x * x * x * x * power_in_43_bits() * power_in_43_bits()) % prime_of_43_bits() == y,
        d == 3 ==> (x * x * x * x * power_in_43_bits() * power_in_43_bits() * power_in_43_bits()) % prime_of_43_bits() == y,
    ensures
        f == 4 * e + d,
        pow(power_in_43_bits() as int, f) % (prime_of_43_bits() as int) == y,
{
    primality::lemma_window(prime_of_43_bits(), power_in_43_bits(), e, x, d, y)
}

proof fn lemma_both_powers_in_43_bits()
    ensures
        pow(power_in_43_bits() as int, 757) % (prime_of_43_bits() as int) == 1,
{
    lemma_pow0(power_in_43_bits() as int);
    let e = 0nat;
    let e = raise_power_43_bits(e, 1, 2, 0x31bbbde7b04nat);
    let e = raise_power_43_bits(e, 0x31bbbde7b04nat, 3, 0x35e113d98a0nat);
    let e = raise_power_43_bits(e, 0x35e113d98a0nat, 3, 0x103a54d8253nat);
    let e = raise_power_43_bits(e, 0x103a54d8253nat, 1, 0x3f1fa974383nat);
    let e = raise_power_43_bits(e, 0x3f1fa974383nat, 1, 1);
}

proof fn lemma_second_power_in_43_bits()
    ensures
        pow(root_of_43_bits() as int, 757) % (prime_of_43_bits() as int) == 0x127978c9ea8nat,
{
    lemma_pow0(root_of_43_bits() as int);
    let e = 0nat;
    let e = raise_root_43_bits(e, 1, 2, 0x27f2678d8eenat);
    let e = raise_root_43_bits(e, 0x27f2678d8eenat, 3, 0x20fc24edd1enat);
    let e = raise_root_43_bits(e, 0x20fc24edd1enat, 3, 0x2a434cfd4d9nat);
    let e = raise_root_43_bits(e, 0x2a434cfd4d9nat, 1, 0x1a23d381b74nat);
    let e = raise_root_43_bits(e, 0x1a23d381b74nat, 1, 0x127978c9ea8nat);
}

proof fn lemma_prime_43_bits()
    ensures
        field::is_prime(prime_of_43_bits()),
{
    lemma_prime_31649();
    lemma_prime_757();
    lemma_first_power_in_43_bits();
    lemma_both_powers_in_43_bits();
    lemma_second_power_in_43_bits();
    primality::lemma_power_of_power(prime_of_43_bits(), root_of_43_bits(), 31649, power_in_43_bits(), 757, 1);
    primality::lemma_prime_by_two_orders(prime_of_43_bits(), root_of_43_bits() as int, 31649, 757, 0x16d9315, 0x24bd957d126int, 0x2fcfd24447cint);
}

spec fn prime_of_49_bits() -> nat {
    0x127aa16eeaabbnat
}

spec fn root_of_49_bits() -> nat {
    0xb02901cf875nat
}

spec fn power_in_49_bits() -> nat {
    0x75c1192b07c9nat
}

proof fn raise_root_49_bits(e: nat, x: nat, d: nat, y: nat) -> (f: nat)
    requires
        pow(root_of_49_bits() as int, e) % (prime_of_49_bits() as int) == x,
        d < 4,
        d == 0 ==> (x * x * x * x) % prime_of_49_bits() == y,
        d == 1 ==> (x * x * x * x * root_of_49_bits()) % prime_of_49_bits() == y,
        d == 2 ==> (x * x * x * x * root_of_49_bits() * root_of_49_bits()) % prime_of_49_bits() == y,
        d == 3 ==> (x * x * x * x * root_of_49_bits() * root_of_49_bits() * root_of_49_bits()) % prime_of_49_bits() == y,
    ensures
        f == 4 * e + d,
        pow(root_of_49_bits() as int, f) % (prime_of_49_bits() as int) == y,
{
    primality::lemma_window(prime_of_49_bits(), root_of_49_bits(), e, x, d, y)
}

proof fn lemma_first_power_in_49_bits()
    ensures
        pow(root_of_49_bits() as int, 772231) % (prime_of_49_bits() as int) == 0x75c1192b07c9nat,
{
    lemma_pow0(root_of_49_bits() as int);
    let e = 0nat;
    let e = raise_root_49_bits(e, 1, 2, 0xf2fb607bfc8cnat);
    let e = raise_root_49_bits(e, 0xf2fb607bfc8cnat, 3, 0x3d8a40ef5bb0nat);
    let e = raise_root_49_bits(e, 0x3d8a40ef5bb0nat, 3, 0x48c411c38475nat);
    let e = raise_root_49_bits(e, 0x48c411c38475nat, 0, 0xb088cf68d608nat);
    let e = raise_root_49_bits(e, 0xb088cf68d608nat, 2, 0x277bb1011d40nat);
    let e = raise_root_49_bits(e, 0x277bb1011d40nat, 0, 0xba8e1575fb79nat);
    let e = raise_root_49_bits(e, 0xba8e1575fb79nat, 2, 0xabe6f1fb57a3nat);
    let e = raise_root_49_bits(e, 0xabe6f1fb57a3nat, 0, 0x526d12b76b46nat);
    let e = raise_root_49_bits(e, 0x526d12b76b46nat, 1, 0xcd03f423e694nat);
    let e = raise_root_49_bits(e, 0xcd03f423e694nat, 3, 0x75c1192b07c9nat);
}

proof fn raise_power_49_bits(e: nat, x: nat, d: nat, y: nat) -> (f: nat)
    requires
        pow(power_in_49_bits() as int, e) % (prime_of_49_bits() as int) == x,
        d < 4,
        d == 0 ==> (x * x * x * x) % prime_of_49_bits() == y,
        d == 1 ==> (x * x * x * x * power_in_49_bits()) % prime_of_49_bits() == y,
        d == 2 ==> (x * x * x * x * power_in_49_bits() * power_in_49_bits()) % prime_of_49_bits() == y,
        d == 3 ==> (x * x * x * x * power_in_49_bits() * power_in_49_bits() * power_in_49_bits()) % prime_of_49_bits() == y,
    ensures
        f == 4 * e + d,
        pow(power_in_49_bits() as int, f) % (prime_of_49_bits() as int) == y,
{
    primality::lemma_window(prime_of_49_bits(), power_in_49_bits(), e, x, d, y)
}

proof fn lemma_both_powers_in_49_bits()
    ensures
        pow(power_in_49_bits() as int, 509) % (prime_of_49_bits() as int) == 1,
{
    lemma_pow0(power_in_49_bits() as int);
    let e = 0nat;
    let e = raise_power_49_bits(e, 1, 1, 0x75c1192b07c9nat);
    let e = raise_power_49_bits(e, 0x75c1192b07c9nat, 3, 0x5701958fb1ednat);
    let e = raise_power_49_bits(e, 0x5701958fb1ednat, 3, 0xb068779caa8fnat);
    let e = raise_power_49_bits(e, 0xb068779caa8fnat, 3, 0x2647471d4b79nat);
    let e = raise_power_49_bits(e, 0x2647471d4b79nat, 1, 1);
}

proof fn lemma_second_power_in_49_bits()
    ensures
        pow(root_of_49_bits() as int, 509) % (prime_of_49_bits() as int) == 0x8e0b83230477nat,
{
    lemma_pow0(root_of_49_bits() as int);
    let e = 0nat;
    let e = raise_root_49_bits(e, 1, 1, 0xb02901cf875nat);
    let e = raise_root_49_bits(e, 0xb02901cf875nat, 3, 0xc249d1281017nat);
    let e = raise_root_49_bits(e, 0xc249d1281017nat, 3, 0x817d477eab1bnat);
    let e = raise_root_49_bits(e, 0x817d477eab1bnat, 3, 0xd44bd338d33bnat);
    let e = raise_root_49_bits(e, 0xd44bd338d33bnat, 1, 0x8e0b83230477nat);
}

proof fn lemma_prime_49_bits()
    ensures
        field::is_prime(prime_of_49_bits()),
{
    lemma_prime_772231();
    lemma_prime_509();
    lemma_first_power_in_49_bits();
    lemma_both_powers_in_49_bits();
    lemma_second_power_in_49_bits();
    primality::lemma_power_of_power(prime_of_49_bits(), root_of_49_bits(), 772231, power_in_49_bits(), 509, 1);
    primality::lemma_prime_by_two_orders(prime_of_49_bits(), root_of_49_bits() as int, 772231, 509, 0x176db46b, 0x690cc1734b03int, 0xbe1a5e86ce16int);
}

spec fn prime_of_114_bits() -> nat {
    0x2021bf7ef46927e5bb403d54ee9cdnat
}

spec fn root_of_114_bits() -> nat {
    0x7afde45383afd431884414e1b4b5nat
}

spec fn power_in_114_bits() -> nat {
    0x1a869374df93dca386dd870f1df5bnat
}

proof fn raise_root_114_bits(e: nat, x: nat, d: nat, y: nat) -> (f: nat)
    requires
        pow(root_of_114_bits() as int, e) % (prime_of_114_bits() as int) == x,
        d < 4,
        d == 0 ==> (x * x * x * x) % prime_of_114_bits() == y,
        d == 1 ==> (x * x * x * x * root_of_114_bits()) % prime_of_114_bits() == y,
        d == 2 ==> (x * x * x * x * root_of_114_bits() * root_of_114_bits()) % prime_of_114_bits() == y,
        d == 3 ==> (x * x * x * x * root_of_114_bits() * root_of_114_bits() * root_of_114_bits()) % prime_of_114_bits() == y,
    ensures
        f == 4 * e + d,
        pow(root_of_114_bits() as int, f) % (prime_of_114_bits() as int) == y,
{
    primality::lemma_window(prime_of_114_bits(), root_of_114_bits(), e, x, d, y)
}

proof fn lemma_first_power_in_114_bits()
    ensures
        pow(root_of_114_bits() as int, prime_of_43_bits()) % (prime_of_114_bits() as int) == 0x1a869374df93dca386dd870f1df5bnat,
{
    lemma_pow0(root_of_114_bits() as int);
    let e = 0nat;
    let e = raise_root_114_bits(e, 1, 1, 0x7afde45383afd431884414e1b4b5nat);
    let e = raise_root_114_bits(e, 0x7afde45383afd431884414e1b4b5nat, 0, 0x14580b547e9539e7b1252b0d0aaf3nat);
    let e = raise_root_114_bits(e, 0x14580b547e9539e7b1252b0d0aaf3nat, 3, 0x87f5e6acf3b3cfaa566b672dd0b2nat);
    let e = raise_root_114_bits(e, 0x87f5e6acf3b3cfaa566b672dd0b2nat, 0, 0x1cc767e7c602bdffbd038a7f2d47bnat);
    let e = raise_root_114_bits(e, 0x1cc767e7c602bdffbd038a7f2d47bnat, 0, 0x1059c411fd5c83b75c1f54a4e67f2nat);
    let e = raise_root_114_bits(e, 0x1059c411fd5c83b75c1f54a4e67f2nat, 3, 0x12880a91614bbf937ac592a746cdcnat);
    let e = raise_root_114_bits(e, 0x12880a91614bbf937ac592a746cdcnat, 3, 0x175e11d2d59a6188346725466b29cnat);
    let e = raise_root_114_bits(e, 0x175e11d2d59a6188346725466b29cnat, 1, 0x5ad6b0659b5ab416b3d960f3e440nat);
    let e = raise_root_114_bits(e, 0x5ad6b0659b5ab416b3d960f3e440nat, 2, 0x3b18ed0019fc487e38d7bc708c79nat);
    let e = raise_root_114_bits(e, 0x3b18ed0019fc487e38d7bc708c79nat, 3, 0x19cf5253ef3c659d4cbbe731bc4d5nat);
    let e = raise_root_114_bits(e, 0x19cf5253ef3c659d4cbbe731bc4d5nat, 1, 0xdcc8209c9ed9d73c96cae1aa127bnat);
    let e = raise_root_114_bits(e, 0xdcc8209c9ed9d73c96cae1aa127bnat, 3, 0x963825f72679a4cabc902b4025c1nat);
    let e = raise_root_114_bits(e, 0x963825f72679a4cabc902b4025c1nat, 2, 0x19c481688fb9a0df9d4c7b64bc21anat);
    let e = raise_root_114_bits(e, 0x19c481688fb9a0df9d4c7b64bc21anat, 3, 0x191db65315f1f173cbaa2fb76e40anat);
    let e = raise_root_114_bits(e, 0x191db65315f1f173cbaa2fb76e40anat, 1, 0x1270a4b3a50f8f0ab50d8f8ae72anat);
    let e = raise_root_114_bits(e, 0x1270a4b3a50f8f0ab50d8f8ae72anat, 2, 0x1a5d9fb6cc4f0d163301f3b4089eanat);
    let e = raise_root_114_bits(e, 0x1a5d9fb6cc4f0d163301f3b4089eanat, 0, 0x18ce9c5cc473297997872c274933fnat);
    let e = raise_root_114_bits(e, 0x18ce9c5cc473297997872c274933fnat, 0, 0x67da0721d3c13269a6b9c117c266nat);
    let e = raise_root_114_bits(e, 0x67da0721d3c13269a6b9c117c266nat, 3, 0xe1719fed0d9bb05396446195deb5nat);
    let e = raise_root_114_bits(e, 0xe1719fed0d9bb05396446195deb5nat, 0, 0x159746a599224e770ba3ed88c2801nat);
    let e = raise_root_114_bits(e, 0x159746a599224e770ba3ed88c2801nat, 0, 0x1bd934b49eaddcc13147f4430e72bnat);
    let e = raise_root_114_bits(e, 0x1bd934b49eaddcc13147f4430e72bnat, 3, 0x1a869374df93dca386dd870f1df5bnat);
}

proof fn raise_power_114_bits(e: nat, x: nat, d: nat, y: nat) -> (f: nat)
    requires
        pow(power_in_114_bits() as int, e) % (prime_of_114_bits() as int) == x,
        d < 4,
        d == 0 ==> (x * x * x * x) % prime_of_114_bits() == y,
        d == 1 ==> (x * x * x * x * power_in_114_bits()) % prime_of_114_bits() == y,
        d == 2 ==> (x * x * x * x * power_in_114_bits() * power_in_114_bits()) % prime_of_114_bits() == y,
        d == 3 ==> (x * x * x * x * power_in_114_bits() * power_in_114_bits() * power_in_114_bits()) % prime_of_114_bits() == y,
    ensures
        f == 4 * e + d,
        pow(power_in_114_bits() as int, f) % (prime_of_114_bits() as int) == y,
{
    primality::lemma_window(prime_of_114_bits(), power_in_114_bits(), e, x, d, y)
}

proof fn lemma_both_powers_in_114_bits()
    ensures
        pow(power_in_114_bits() as int, 399082391) % (prime_of_114_bits() as int) == 1,
{
    lemma_pow0(power_in_114_bits() as int);
    let e = 0nat;
    let e = raise_power_114_bits(e, 1, 1, 0x1a869374df93dca386dd870f1df5bnat);
    let e = raise_power_114_bits(e, 0x1a869374df93dca386dd870f1df5bnat, 1, 0x1f34a0ac37ee366b6f9e40981df66nat);
    let e = raise_power_114_bits(e, 0x1f34a0ac37ee366b6f9e40981df66nat, 3, 0xf396fb17b45a95affb9dd49ac874nat);
    let e = raise_power_114_bits(e, 0xf396fb17b45a95affb9dd49ac874nat, 3, 0x14dd8a45e5d7d24992e8999d535fbnat);
    let e = raise_power_114_bits(e, 0x14dd8a45e5d7d24992e8999d535fbnat, 0, 0x1fa7823347f6642204590adb72d29nat);
    let e = raise_power_114_bits(e, 0x1fa7823347f6642204590adb72d29nat, 2, 0xbdf4dde923be4eee7b675231d0ednat);
    let e = raise_power_114_bits(e, 0xbdf4dde923be4eee7b675231d0ednat, 1, 0x103c510bb86efe7684ed5983dc61nat);
    let e = raise_power_114_bits(e, 0x103c510bb86efe7684ed5983dc61nat, 2, 0xfe3239cb13c1d61006e3c08efbfnat);
    let e = raise_power_114_bits(e, 0xfe3239cb13c1d61006e3c08efbfnat, 0, 0x3f8ce49caedd24b1acaa495a2343nat);
    let e = raise_power_114_bits(e, 0x3f8ce49caedd24b1acaa495a2343nat, 0, 0x11b4297ccf448404647341e3c137anat);
    let e = raise_power_114_bits(e, 0x11b4297ccf448404647341e3c137anat, 3, 0xdbd90c523a44901999fe8d648a9dnat);
    let e = raise_power_114_bits(e, 0xdbd90c523a44901999fe8d648a9dnat, 2, 0x19c0f3464586270cb0b7cb5860a72nat);
    let e = raise_power_114_bits(e, 0x19c0f3464586270cb0b7cb5860a72nat, 1, 0x1013921606f7eae43314466fe9a07nat);
    let e = raise_power_114_bits(e, 0x1013921606f7eae43314466fe9a07nat, 1, 0x12ca0a2060b58168abf0d2b8c94c7nat);
    let e = raise_power_114_bits(e, 0x12ca0a2060b58168abf0d2b8c94c7nat, 3, 1);
}

proof fn lemma_second_power_in_114_bits()
    ensures
        pow(root_of_114_bits() as int, 399082391) % (prime_of_114_bits() as int) == 0xc1a78ee99a869bef810fec33de5anat,
{
    lemma_pow0(root_of_114_bits() as int);
    let e = 0nat;
    let e = raise_root_114_bits(e, 1, 1, 0x7afde45383afd431884414e1b4b5nat);
    let e = raise_root_114_bits(e, 0x7afde45383afd431884414e1b4b5nat, 1, 0x1b7e3d60467ab963392ca4b81432nat);
    let e = raise_root_114_bits(e, 0x1b7e3d60467ab963392ca4b81432nat, 3, 0xf3a2207cbf0bd689ae9c7478d5b9nat);
    let e = raise_root_114_bits(e, 0xf3a2207cbf0bd689ae9c7478d5b9nat, 3, 0x1f6026c52e2ccdf42fe7bcd00234enat);
    let e = raise_root_114_bits(e, 0x1f6026c52e2ccdf42fe7bcd00234enat, 0, 0x1491cc26137b3bc141248cff92344nat);
    let e = raise_root_114_bits(e, 0x1491cc26137b3bc141248cff92344nat, 2, 0x183f8a1fdc0f922d313f031c636ebnat);
    let e = raise_root_114_bits(e, 0x183f8a1fdc0f922d313f031c636ebnat, 1, 0x5040b45f8b2eeb31ee60288f9f5nat);
    let e = raise_root_114_bits(e, 0x5040b45f8b2eeb31ee60288f9f5nat, 2, 0x4c4043a45b76c005372b3d9609e8nat);
    let e = raise_root_114_bits(e, 0x4c4043a45b76c005372b3d9609e8nat, 0, 0x12e54ca326c8db974b670ac7624dcnat);
    let e = raise_root_114_bits(e, 0x12e54ca326c8db974b670ac7624dcnat, 0, 0x1e29f076036a293b72ebcaffdc79enat);
    let e = raise_root_114_bits(e, 0x1e29f076036a293b72ebcaffdc79enat, 3, 0x1f7f091a2f486bb5f1b1d35e95947nat);
    let e = raise_root_114_bits(e, 0x1f7f091a2f486bb5f1b1d35e95947nat, 2, 0x1db72dacddbeb83d46d0082a50249nat);
    let e = raise_root_114_bits(e, 0x1db72dacddbeb83d46d0082a50249nat, 1, 0x12bfc684932ff994a44387e5409ebnat);
    let e = raise_root_114_bits(e, 0x12bfc684932ff994a44387e5409ebnat, 1, 0x1ef06205206c82a76193c70a5b6e8nat);
    let e = raise_root_114_bits(e, 0x1ef06205206c82a76193c70a5b6e8nat, 3, 0xc1a78ee99a869bef810fec33de5anat);
}

proof fn lemma_prime_114_bits()
    ensures
        field::is_prime(prime_of_114_bits()),
{
    lemma_prime_43_bits();
    lemma_prime_399082391();
    lemma_first_power_in_114_bits();
    lemma_both_powers_in_114_bits();
    lemma_second_power_in_114_bits();
    primality::lemma_power_of_power(prime_of_114_bits(), root_of_114_bits(), prime_of_43_bits(), power_in_114_bits(), 399082391, 1);
    primality::lemma_prime_by_two_orders(prime_of_114_bits(), root_of_114_bits() as int, prime_of_43_bits(), 399082391, 0x7158f272671664dc05nat, 0x1d909c87cca6d3895450f727de3d7int, 0xe2db56fca1e3ddc14e86794b5c6fint);
}

spec fn prime_of_143_bits() -> nat {
    0x674e41aa25559f3f6806ca7324f298d5465dnat
}

spec fn root_of_143_bits() -> nat {
    0x3306493093511ba521b11cb7c5bbbc000e7bnat
}

spec fn power_in_143_bits() -> nat {
    0x55bb924d6d8f9f031b347bf64472e58fbe3enat
}

proof fn raise_root_143_bits(e: nat, x: nat, d: nat, y: nat) -> (f: nat)
    requires
        pow(root_of_143_bits() as int, e) % (prime_of_143_bits() as int) == x,
        d < 4,
        d == 0 ==> (x * x * x * x) % prime_of_143_bits() == y,
        d == 1 ==> (x * x * x * x * root_of_143_bits()) % prime_of_143_bits() == y,
        d == 2 ==> (x * x * x * x * root_of_143_bits() * root_of_143_bits()) % prime_of_143_bits() == y,
        d == 3 ==> (x * x * x * x * root_of_143_bits() * root_of_143_bits() * root_of_143_bits()) % prime_of_143_bits() == y,
    ensures
        f == 4 * e + d,
        pow(root_of_143_bits() as int, f) % (prime_of_143_bits() as int) == y,
{
    primality::lemma_window(prime_of_143_bits(), root_of_143_bits(), e, x, d, y)
}

proof fn lemma_first_power_in_143_bits()
    ensures
        pow(root_of_143_bits() as int, prime_of_49_bits()) % (prime_of_143_bits() as int) == 0x55bb924d6d8f9f031b347bf64472e58fbe3enat,
{
    lemma_pow0(root_of_143_bits() as int);
    let e = 0nat;
    let e = raise_root_143_bits(e, 1, 1, 0x3306493093511ba521b11cb7c5bbbc000e7bnat);
    let e = raise_root_143_bits(e, 0x3306493093511ba521b11cb7c5bbbc000e7bnat, 0, 0x37ffee3605a62221b5569f472a45a2e8012fnat);
    let e = raise_root_143_bits(e, 0x37ffee3605a62221b5569f472a45a2e8012fnat, 2, 0xc1ae6532396c61a0b05a8f911dd0ba80f3nat);
    let e = raise_root_143_bits(e, 0xc1ae6532396c61a0b05a8f911dd0ba80f3nat, 1, 0x2fa8440f359a5de6d1b0de8b63cb2bb67964nat);
    let e = raise_root_143_bits(e, 0x2fa8440f359a5de6d1b0de8b63cb2bb67964nat, 3, 0x19304cedd09838906baadb6dfae39db756b0nat);
    let e = raise_root_143_bits(e, 0x19304cedd09838906baadb6dfae39db756b0nat, 2, 0x29b9793a98c57d0ee7c14f23a7585dca36e3nat);
    let e = raise_root_143_bits(e, 0x29b9793a98c57d0ee7c14f23a7585dca36e3nat, 2, 0xaef88f686bb283ef06542c3fda10bd2a36anat);
    let e = raise_root_143_bits(e, 0xaef88f686bb283ef06542c3fda10bd2a36anat, 2, 0x1288828fc6f845d31bee575b4e729e8155e6nat);
    let e = raise_root_143_bits(e, 0x1288828fc6f845d31bee575b4e729e8155e6nat, 2, 0x2621e52b84f7d3d473ba9897213f8682eb90nat);
    let e = raise_root_143_bits(e, 0x2621e52b84f7d3d473ba9897213f8682eb90nat, 0, 0x2cd93284699855ca6f74b06a499231d11071nat);
    let e = raise_root_143_bits(e, 0x2cd93284699855ca6f74b06a499231d11071nat, 1, 0x23991f50f8734a4656f0165f8570bc674d86nat);
    let e = raise_root_143_bits(e, 0x23991f50f8734a4656f0165f8570bc674d86nat, 1, 0x287defe1251008f4826ab6e5f2b9163dfecdnat);
    let e = raise_root_143_bits(e, 0x287defe1251008f4826ab6e5f2b9163dfecdnat, 2, 0x5fce372e77272288bddabf37745491ec9392nat);
    let e = raise_root_143_bits(e, 0x5fce372e77272288bddabf37745491ec9392nat, 3, 0xad7c6b96fa4223da34e4dd9de91710234b3nat);
    let e = raise_root_143_bits(e, 0xad7c6b96fa4223da34e4dd9de91710234b3nat, 2, 0x62bd39f369d9a9a3cab45f3ff9a4fc78407nat);
    let e = raise_root_143_bits(e, 0x62bd39f369d9a9a3cab45f3ff9a4fc78407nat, 3, 0x37e07117f9f25fe98b3362128135c73da50dnat);
    let e = raise_root_143_bits(e, 0x37e07117f9f25fe98b3362128135c73da50dnat, 2, 0x5adcdc7f9c68358bf8290a2e3f63d2773f18nat);
    let e = raise_root_143_bits(e, 0x5adcdc7f9c68358bf8290a2e3f63d2773f18nat, 2, 0xa1a38427dc38ff6beaed47c9173799fde9fnat);
    let e = raise_root_143_bits(e, 0xa1a38427dc38ff6beaed47c9173799fde9fnat, 2, 0x272495cd77a8398c337777d48fc0b7bbd0d2nat);
    let e = raise_root_143_bits(e, 0x272495cd77a8398c337777d48fc0b7bbd0d2nat, 2, 0x1397258b8ac3d56a6d0c997236841609b1d9nat);
    let e = raise_root_143_bits(e, 0x1397258b8ac3d56a6d0c997236841609b1d9nat, 2, 0x4d97acded4b9ffa18650dfdffea2c0cbcc2cnat);
    let e = raise_root_143_bits(e, 0x4d97acded4b9ffa18650dfdffea2c0cbcc2cnat, 2, 0x24f71ba6ac85fce295e2126ff9d1840b04benat);
    let e = raise_root_143_bits(e, 0x24f71ba6ac85fce295e2126ff9d1840b04benat, 3, 0x126fce2cf993f7ba9a52f724667288ca0e1dnat);
    let e = raise_root_143_bits(e, 0x126fce2cf993f7ba9a52f724667288ca0e1dnat, 2, 0x268d4a1c5601586b2d14a18ebb7ae81fca67nat);
    let e = raise_root_143_bits(e, 0x268d4a1c5601586b2d14a18ebb7ae81fca67nat, 3, 0x55bb924d6d8f9f031b347bf64472e58fbe3enat);
}

proof fn raise_power_143_bits(e: nat, x: nat, d: nat, y: nat) -> (f: nat)
    requires
        pow(power_in_143_bits() as int, e) % (prime_of_143_bits() as int) == x,
        d < 4,
        d == 0 ==> (x * x * x * x) % prime_of_143_bits() == y,
        d == 1 ==> (x * x * x * x * power_in_143_bits()) % prime_of_143_bits() == y,
        d == 2 ==> (x * x * x * x * power_in_143_bits() * power_in_143_bits()) % prime_of_143_bits() == y,
        d == 3 ==> (x * x * x * x * power_in_143_bits() * power_in_143_bits() * power_in_143_bits()) % prime_of_143_bits() == y,
    ensures
        f == 4 * e + d,
        pow(power_in_143_bits() as int, f) % (prime_of_143_bits() as int) == y,
{
    primality::lemma_window(prime_of_143_bits(), power_in_143_bits(), e, x, d, y)
}

proof fn lemma_both_powers_in_143_bits()
    ensures
        pow(power_in_143_bits() as int, prime_of_35_bits()) % (prime_of_143_bits() as int) == 1,
{
    lemma_pow0(power_in_143_bits() as int);
    let e = 0nat;
    let e = raise_power_143_bits(e, 1, 1, 0x55bb924d6d8f9f031b347bf64472e58fbe3enat);
    let e = raise_power_143_bits(e, 0x55bb924d6d8f9f031b347bf64472e58fbe3enat, 1, 0x5537b15531d10dda5faa2b62db3c8ad57162nat);
    let e = raise_power_143_bits(e, 0x5537b15531d10dda5faa2b62db3c8ad57162nat, 0, 0x3973c52c44fea57717960f4abf827a55d0a1nat);
    let e = raise_power_143_bits(e, 0x3973c52c44fea57717960f4abf827a55d0a1nat, 2, 0x4362e68fbf701070c2f1b7dac6b3c1e88177nat);
    let e = raise_power_143_bits(e, 0x4362e68fbf701070c2f1b7dac6b3c1e88177nat, 2, 0x5c6f76b1e41e00c3ea7ae4166e88a01b35e8nat);
    let e = raise_power_143_bits(e, 0x5c6f76b1e41e00c3ea7ae4166e88a01b35e8nat, 0, 0x1207fa5f8a1787f67e7a4e54e4836e9d017anat);
    let e = raise_power_143_bits(e, 0x1207fa5f8a1787f67e7a4e54e4836e9d017anat, 3, 0x328b744b5f6a6144517c731f6d387d0846b3nat);
    let e = raise_power_143_bits(e, 0x328b744b5f6a6144517c731f6d387d0846b3nat, 2, 0x507b92e1fb3000ddfb125ba46638fb402fb7nat);
    let e = raise_power_143_bits(e, 0x507b92e1fb3000ddfb125ba46638fb402fb7nat, 0, 0x2a011a60b2ae942687a83b35ff4846f37173nat);
    let e = raise_power_143_bits(e, 0x2a011a60b2ae942687a83b35ff4846f37173nat, 0, 0x199dff8b128063f93d5dcff8073d35384167nat);
    let e = raise_power_143_bits(e, 0x199dff8b128063f93d5dcff8073d35384167nat, 3, 0xa4636631cdb2994be1bb6ae47f043a9faddnat);
    let e = raise_power_143_bits(e, 0xa4636631cdb2994be1bb6ae47f043a9faddnat, 1, 0x5be63bad8eca0143faf2f65a71c65e2db5c6nat);
    let e = raise_power_143_bits(e, 0x5be63bad8eca0143faf2f65a71c65e2db5c6nat, 3, 0x482fe740930fb5940a4e0c81b972d5713595nat);
    let e = raise_power_143_bits(e, 0x482fe740930fb5940a4e0c81b972d5713595nat, 0, 0x58d8faf60e2b3385d79e63586aee7d1c806nat);
    let e = raise_power_143_bits(e, 0x58d8faf60e2b3385d79e63586aee7d1c806nat, 1, 0x7ab0f68a5bc977c7a7db4ada45ddefea733nat);
    let e = raise_power_143_bits(e, 0x7ab0f68a5bc977c7a7db4ada45ddefea733nat, 3, 0x5ee0fc39840668cb052df15cf2c0937e5bf2nat);
    let e = raise_power_143_bits(e, 0x5ee0fc39840668cb052df15cf2c0937e5bf2nat, 3, 0x669672b84acdf0ae4b85641d4fd4f8c25b53nat);
    let e = raise_power_143_bits(e, 0x669672b84acdf0ae4b85641d4fd4f8c25b53nat, 1, 1);
}

proof fn lemma_second_power_in_143_bits()
    ensures
        pow(root_of_143_bits() as int, prime_of_35_bits()) % (prime_of_143_bits() as int) == 0x1615a4fc9dd1d5260b3068d98852c86a2c65nat,
{
    lemma_pow0(root_of_143_bits() as int);
    let e = 0nat;
    let e = raise_root_143_bits(e, 1, 1, 0x3306493093511ba521b11cb7c5bbbc000e7bnat);
    let e = raise_root_143_bits(e, 0x3306493093511ba521b11cb7c5bbbc000e7bnat, 1, 0x5648e486e671647f90245932df0bfa07c002nat);
    let e = raise_root_143_bits(e, 0x5648e486e671647f90245932df0bfa07c002nat, 0, 0x2f3ba39db81b9d0cfbe8d3c6c14890ba9301nat);
    let e = raise_root_143_bits(e, 0x2f3ba39db81b9d0cfbe8d3c6c14890ba9301nat, 2, 0x54cb309f8770151a429be245710dfbc69b04nat);
    let e = raise_root_143_bits(e, 0x54cb309f8770151a429be245710dfbc69b04nat, 2, 0x4144a2c7fd1f27982d8ce527b693b90be363nat);
    let e = raise_root_143_bits(e, 0x4144a2c7fd1f27982d8ce527b693b90be363nat, 0, 0xb030cd2766dd89bc6d5bbbcdb28713e507dnat);
    let e = raise_root_143_bits(e, 0xb030cd2766dd89bc6d5bbbcdb28713e507dnat, 3, 0x33770b5913a32d4ef64f1649a5325574d3fcnat);
    let e = raise_root_143_bits(e, 0x33770b5913a32d4ef64f1649a5325574d3fcnat, 2, 0xc3096f43de0a4d5095ec5fd3e864f4fe789nat);
    let e = raise_root_143_bits(e, 0xc3096f43de0a4d5095ec5fd3e864f4fe789nat, 0, 0x2141d2f1b3bf1655fcd5a19b5f854c25bff2nat);
    let e = raise_root_143_bits(e, 0x2141d2f1b3bf1655fcd5a19b5f854c25bff2nat, 0, 0x3c191d6de2fe2b3114ecdc8855fb9f67704dnat);
    let e = raise_root_143_bits(e, 0x3c191d6de2fe2b3114ecdc8855fb9f67704dnat, 3, 0x5236313a68c88d9c567e21fbfc6592e3f0acnat);
    let e = raise_root_143_bits(e, 0x5236313a68c88d9c567e21fbfc6592e3f0acnat, 1, 0x2c162e0351630d05ac95c250d781a831a862nat);
    let e = raise_root_143_bits(e, 0x2c162e0351630d05ac95c250d781a831a862nat, 3, 0x1624d33e10e8b108964c6d42bf42c683b543nat);
    let e = raise_root_143_bits(e, 0x1624d33e10e8b108964c6d42bf42c683b543nat, 0, 0x8776d6739f00365a95f8f04afac73c62c63nat);
    let e = raise_root_143_bits(e, 0x8776d6739f00365a95f8f04afac73c62c63nat, 1, 0x17b4680065f6c4a93309703b90b9d5cb60ffnat);
    let e = raise_root_143_bits(e, 0x17b4680065f6c4a93309703b90b9d5cb60ffnat, 3, 0x4322f0492e96ddfce65ff603ccb0a663c89dnat);
    let e = raise_root_143_bits(e, 0x4322f0492e96ddfce65ff603ccb0a663c89dnat, 3, 0x4452324ae78be2fad82bebc5f42665f05a09nat);
    let e = raise_root_143_bits(e, 0x4452324ae78be2fad82bebc5f42665f05a09nat, 1, 0x1615a4fc9dd1d5260b3068d98852c86a2c65nat);
}

proof fn lemma_prime_143_bits()
    ensures
        field::is_prime(prime_of_143_bits()),
{
    lemma_prime_49_bits();
    lemma_prime_35_bits();
    lemma_first_power_in_143_bits();
    lemma_both_powers_in_143_bits();
    lemma_second_power_in_143_bits();
    primality::lemma_power_of_power(prime_of_143_bits(), root_of_143_bits(), prime_of_49_bits(), power_in_143_bits(), prime_of_35_bits(), 1);
    primality::lemma_prime_by_two_orders(prime_of_143_bits(), root_of_143_bits() as int, prime_of_49_bits(), prime_of_35_bits(), 0x5f588b9b93aebe8e2114fnat, 0x4f3b026dd0bce12fbee81d1727fe3a8bc799int, 0x356b71f8635bd248c70d2e065392ab87c1fcint);
}

spec fn root_of_pallas() -> nat {
    0x348cdb83aa5c808a180e82875bf3b391ef293ff1cd5f81d0c402c0be7bf67293nat
}

proof fn raise_root_pallas(e: nat, x: nat, d: nat, y: nat) -> (f: nat)
    requires
        pow(root_of_pallas() as int, e) % (pasta::pallas_modulus() as int) == x,
        d < 4,
        d == 0 ==> (x * x * x * x) % pasta::pallas_modulus() == y,
        d == 1 ==> (x * x * x * x * root_of_pallas()) % pasta::pallas_modulus() == y,
        d == 2 ==> (x * x * x * x * root_of_pallas() * root_of_pallas()) % pasta::pallas_modulus() == y,
        d == 3 ==> (x * x * x * x * root_of_pallas() * root_of_pallas() * root_of_pallas()) % pasta::pallas_modulus() == y,
    ensures
        f == 4 * e + d,
        pow(root_of_pallas() as int, f) % (pasta::pallas_modulus() as int) == y,
{
    primality::lemma_window(pasta::pallas_modulus(), root_of_pallas(), e, x, d, y)
}

proof fn lemma_power_in_pallas_part_1()
    ensures
        pow(root_of_pallas() as int, 0x674e41aa25559nat) % (pasta::pallas_modulus() as int) == 0x3b3904008ec6f268360c1284bcbf0c0d7605f1441e54f9e4b5c05b99963340c4nat,
{
    lemma_pow0(root_of_pallas() as int);
    let e = 0nat;
    let e = raise_root_pallas(e, 1, 1, 0x348cdb83aa5c808a180e82875bf3b391ef293ff1cd5f81d0c402c0be7bf67293nat);
    let e = raise_root_pallas(e, 0x348cdb83aa5c808a180e82875bf3b391ef293ff1cd5f81d0c402c0be7bf67293nat, 2, 0x14c2b70c08b4ada28d5d0525a1a80ac1457dcf9542801c6a1f8985444cfcb5denat);
    let e = raise_root_pallas(e, 0x14c2b70c08b4ada28d5d0525a1a80ac1457dcf9542801c6a1f8985444cfcb5denat, 1, 0x33fbc6531005eb999e087cb9d91e2ad381e3388f11839e9ec0c22c7b6ff63779nat);
    let e = raise_root_pallas(e, 0x33fbc6531005eb999e087cb9d91e2ad381e3388f11839e9ec0c22c7b6ff63779nat, 3, 0x2b59b2be1223b40da6e7df8cc148e9fe5bfda3d6246be629bded55a5c325478anat);
    let e = raise_root_pallas(e, 0x2b59b2be1223b40da6e7df8cc148e9fe5bfda3d6246be629bded55a5c325478anat, 1, 0x1b2f025dee0ec32c97a6322575cd912b23255d98ce70ec2cee49aad7d0497fffnat);
    let e = raise_root_pallas(e, 0x1b2f025dee0ec32c97a6322575cd912b23255d98ce70ec2cee49aad7d0497fffnat, 0, 0x12e748518fffad6d9e868c40a41753625346b33e9ae0d0bafe7478a9d3ba8272nat);
    let e = raise_root_pallas(e, 0x12e748518fffad6d9e868c40a41753625346b33e9ae0d0bafe7478a9d3ba8272nat, 3, 0x2d453589b111569f90c6c7c53fb7a0dbaa5003f7848b96a9cd16bab3b287cbe9nat);
    let e = raise_root_pallas(e, 0x2d453589b111569f90c6c7c53fb7a0dbaa5003f7848b96a9cd16bab3b287cbe9nat, 2, 0x379468ca6bb77c41155cf375f7e4e1fbc1179081840c043e10c469af29549464nat);
    let e = raise_root_pallas(e, 0x379468ca6bb77c41155cf375f7e4e1fbc1179081840c043e10c469af29549464nat, 1, 0x162263ea8710f679f4208c450e5195dcb06894ccd0a35bfdc49e5adf16d26fd9nat);
    let e = raise_root_pallas(e, 0x162263ea8710f679f4208c450e5195dcb06894ccd0a35bfdc49e5adf16d26fd9nat, 0, 0x382d90cb6377d6f2d00ee7fc798a71dced4f99f29207018a74fbe968b26f8bdenat);
    let e = raise_root_pallas(e, 0x382d90cb6377d6f2d00ee7fc798a71dced4f99f29207018a74fbe968b26f8bdenat, 0, 0x3222c4376857c80fad4bee2f5a4aa54864eba9aa62e4fbe1031490e33c3b03d7nat);
    let e = raise_root_pallas(e, 0x3222c4376857c80fad4bee2f5a4aa54864eba9aa62e4fbe1031490e33c3b03d7nat, 1, 0x374a8434b15c8c8cd4979526b20941972a118374d9d0a55bf3c679b995607726nat);
    let e = raise_root_pallas(e, 0x374a8434b15c8c8cd4979526b20941972a118374d9d0a55bf3c679b995607726nat, 2, 0x38a2b7afb4fda6c5a69e8f8d6a19856e7106c42f5c30d1491330a731608c2cbanat);
    let e = raise_root_pallas(e, 0x38a2b7afb4fda6c5a69e8f8d6a19856e7106c42f5c30d1491330a731608c2cbanat, 2, 0x2319093e4ece846cde37d0ea4fee6393b303b00dbda1289450daba0f5a3a80f7nat);
    let e = raise_root_pallas(e, 0x2319093e4ece846cde37d0ea4fee6393b303b00dbda1289450daba0f5a3a80f7nat, 2, 0x18a8e2fc2ab823f4a17576d91d10a8ef1e0c1611b5049c709f31ceb1bbdf334enat);
    let e = raise_root_pallas(e, 0x18a8e2fc2ab823f4a17576d91d10a8ef1e0c1611b5049c709f31ceb1bbdf334enat, 2, 0x45a47b775b7f5454d18f3fec8aa4ed2901daf423cc7d5d8f2861b5233fa41b6nat);
    let e = raise_root_pallas(e, 0x45a47b775b7f5454d18f3fec8aa4ed2901daf423cc7d5d8f2861b5233fa41b6nat, 0, 0x655204b1ac4988034e26ac23568f9e00b7d539ff3deda156bf38d63c226ed74nat);
    let e = raise_root_pallas(e, 0x655204b1ac4988034e26ac23568f9e00b7d539ff3deda156bf38d63c226ed74nat, 2, 0x600b224473fac2fe6237e518e932e6b54d0c186410124771cab00965af9538anat);
    let e = raise_root_pallas(e, 0x600b224473fac2fe6237e518e932e6b54d0c186410124771cab00965af9538anat, 1, 0x23e618756c98d31a109719ff8eddfdfc5e4d5dff557aa384861247fc1294f52anat);
    let e = raise_root_pallas(e, 0x23e618756c98d31a109719ff8eddfdfc5e4d5dff557aa384861247fc1294f52anat, 1, 0x795bb24a687da38dc689f45ab48bb39774952c505dd59b8d9e58cf392a12aeanat);
    let e = raise_root_pallas(e, 0x795bb24a687da38dc689f45ab48bb39774952c505dd59b8d9e58cf392a12aeanat, 1, 0x21522fd02051b26a57e79eec8178439ec43c4a7d051db76087ae7d6c51b3d3cenat);
    let e = raise_root_pallas(e, 0x21522fd02051b26a57e79eec8178439ec43c4a7d051db76087ae7d6c51b3d3cenat, 1, 0x2fa4a8a9eadbf767ef2d0f2cb67338e431b79903caeb6e39a67c2ce829f0b787nat);
    let e = raise_root_pallas(e, 0x2fa4a8a9eadbf767ef2d0f2cb67338e431b79903caeb6e39a67c2ce829f0b787nat, 1, 0x2d7748d0c05c59504c24159960430a4b559afa79a8b439c05288f41105b44ce4nat);
    let e = raise_root_pallas(e, 0x2d7748d0c05c59504c24159960430a4b559afa79a8b439c05288f41105b44ce4nat, 1, 0xfe64ad765e4d2d9e4333909397a5cbe2f4292e117d008cf879a861afc5104abnat);
    let e = raise_root_pallas(e, 0xfe64ad765e4d2d9e4333909397a5cbe2f4292e117d008cf879a861afc5104abnat, 2, 0xc760a015fe08c6da0c73bb9e676b1a79f6e2c3169744b3f800541e6e466d83enat);
    let e = raise_root_pallas(e, 0xc760a015fe08c6da0c73bb9e676b1a79f6e2c3169744b3f800541e6e466d83enat, 1, 0x3b3904008ec6f268360c1284bcbf0c0d7605f1441e54f9e4b5c05b99963340c4nat);
}

proof fn lemma_power_in_pallas_part_2()
    ensures
        pow(root_of_pallas() as int, 0x674e41aa25559f3f6806ca7324nat) % (pasta::pallas_modulus() as int) == 0xfff5f0c7c9848aad9e0b036a9e352245f9de361237b420874b951c4877a96ebnat,
{
    lemma_power_in_pallas_part_1();
    let e = 0x674e41aa25559nat;
    let e = raise_root_pallas(e, 0x3b3904008ec6f268360c1284bcbf0c0d7605f1441e54f9e4b5c05b99963340c4nat, 3, 0x17ce6f78a7893b436a7077425cfbf0fa4e1b88708f82d799ed611f77e17c095fnat);
    let e = raise_root_pallas(e, 0x17ce6f78a7893b436a7077425cfbf0fa4e1b88708f82d799ed611f77e17c095fnat, 3, 0xbc10cb6b60a804b436f026a540cd7a5a9d5155a358ca6a8f67d68694d75d8d8nat);
    let e = raise_root_pallas(e, 0xbc10cb6b60a804b436f026a540cd7a5a9d5155a358ca6a8f67d68694d75d8d8nat, 0, 0x200769fb000eb5918056e7cc6b18860ac7af3af98907269ee31ffb31634ba9e2nat);
    let e = raise_root_pallas(e, 0x200769fb000eb5918056e7cc6b18860ac7af3af98907269ee31ffb31634ba9e2nat, 3, 0x5a6a31ab7c652d16a0a624c38319f09e5ada872ebb349c448158605155b5860nat);
    let e = raise_root_pallas(e, 0x5a6a31ab7c652d16a0a624c38319f09e5ada872ebb349c448158605155b5860nat, 3, 0x867d7c185560bdbfe8cea7bc7b8225b84a0bd23a04e8b2805929e0b7d33fd4nat);
    let e = raise_root_pallas(e, 0x867d7c185560bdbfe8cea7bc7b8225b84a0bd23a04e8b2805929e0b7d33fd4nat, 3, 0x5f43423a09e530eb24da200beaed574566154563054dbed68f9b809223ab91enat);
    let e = raise_root_pallas(e, 0x5f43423a09e530eb24da200beaed574566154563054dbed68f9b809223ab91enat, 1, 0x3a55e702209d11fc17211b0fbeffa6e93227f19070dd9a2c015eb90c4b78174fnat);
    let e = raise_root_pallas(e, 0x3a55e702209d11fc17211b0fbeffa6e93227f19070dd9a2c015eb90c4b78174fnat, 2, 0xc1c904c80e01f06afccaed98be20cb1b44a03943f890a75ae5ccdd91563f307nat);
    let e = raise_root_pallas(e, 0xc1c904c80e01f06afccaed98be20cb1b44a03943f890a75ae5ccdd91563f307nat, 2, 0x302566873158424a0946bc917ad43f8cf38b9dba9c864c9639d069e978c4d5bbnat);
    let e = raise_root_pallas(e, 0x302566873158424a0946bc917ad43f8cf38b9dba9c864c9639d069e978c4d5bbnat, 0, 0x2ce8b04d5a852f901a55bebd1758c26dacd03f87d5d36471d5d8fd94e8c1fb25nat);
    let e = raise_root_pallas(e, 0x2ce8b04d5a852f901a55bebd1758c26dacd03f87d5d36471d5d8fd94e8c1fb25nat, 0, 0x1301f2f372038de2e396b9c200cb73a328a78510cf50ba30aec702660834d5enat);
    let e = raise_root_pallas(e, 0x1301f2f372038de2e396b9c200cb73a328a78510cf50ba30aec702660834d5enat, 0, 0x347c7c9d90ad532375757aed4e6f288552cd4842441ca06f3a9af0d720400c32nat);
    let e = raise_root_pallas(e, 0x347c7c9d90ad532375757aed4e6f288552cd4842441ca06f3a9af0d720400c32nat, 1, 0x30c75029d8e9d984d9576da4fff6954f73901b09bf271e42138477e39b40ba9cnat);
    let e = raise_root_pallas(e, 0x30c75029d8e9d984d9576da4fff6954f73901b09bf271e42138477e39b40ba9cnat, 2, 0x571a73a262d310593acdfe8eb9d0a7e062a8fdc65717b94a9f9a0d208dc9a7cnat);
    let e = raise_root_pallas(e, 0x571a73a262d310593acdfe8eb9d0a7e062a8fdc65717b94a9f9a0d208dc9a7cnat, 3, 0x157c96eb5f9709ca2230fb381b34b1e68ae977e88e53507ef54168ae7343715dnat);
    let e = raise_root_pallas(e, 0x157c96eb5f9709ca2230fb381b34b1e68ae977e88e53507ef54168ae7343715dnat, 0, 0x1121714c90b92742235ef1f8d6addfb331c5bf113097aba7c67c69d086b19a3bnat);
    let e = raise_root_pallas(e, 0x1121714c90b92742235ef1f8d6addfb331c5bf113097aba7c67c69d086b19a3bnat, 2, 0x13fb560775c0a045e39dc568246caa430417a7d14d7a7a791b46a1bcd52986a7nat);
    let e = raise_root_pallas(e, 0x13fb560775c0a045e39dc568246caa430417a7d14d7a7a791b46a1bcd52986a7nat, 2, 0xbd3c2e364487d848af454f34a12f41da331e029c202cd1c41b8b01dd6314980nat);
    let e = raise_root_pallas(e, 0xbd3c2e364487d848af454f34a12f41da331e029c202cd1c41b8b01dd6314980nat, 1, 0x25d9df2f063fdfad84421afa586870596f9f46ff3fe0cb8522976f6c4837c4danat);
    let e = raise_root_pallas(e, 0x25d9df2f063fdfad84421afa586870596f9f46ff3fe0cb8522976f6c4837c4danat, 3, 0x63e9fae4d93e8b90b804d4b37150bc072c9c0f20a2463c451a9a1b6067d786nat);
    let e = raise_root_pallas(e, 0x63e9fae4d93e8b90b804d4b37150bc072c9c0f20a2463c451a9a1b6067d786nat, 0, 0x14d328f0bb413c281495cf06a1e9cd8519078306e60415f6097472ea1821dffnat);
    let e = raise_root_pallas(e, 0x14d328f0bb413c281495cf06a1e9cd8519078306e60415f6097472ea1821dffnat, 3, 0x3d02fa90669de6f26fa28a2b9f43fccf9c2e4dab68ec6685e910985d3f3b6af0nat);
    let e = raise_root_pallas(e, 0x3d02fa90669de6f26fa28a2b9f43fccf9c2e4dab68ec6685e910985d3f3b6af0nat, 0, 0x1d9c0e6c990bec0699b16c7c5ac5fc5eaf5c58cbcdfe8ee18412952fd6ff025nat);
    let e = raise_root_pallas(e, 0x1d9c0e6c990bec0699b16c7c5ac5fc5eaf5c58cbcdfe8ee18412952fd6ff025nat, 2, 0x210ec4c63bf9868bc44c745bfc9ef0cec512d4ba3c42268f1d23185bac5d124nat);
    let e = raise_root_pallas(e, 0x210ec4c63bf9868bc44c745bfc9ef0cec512d4ba3c42268f1d23185bac5d124nat, 1, 0x2206768dc4e6226dc95027d4d4345436888830a809d692e2a492b5063fe9d093nat);
    let e = raise_root_pallas(e, 0x2206768dc4e6226dc95027d4d4345436888830a809d692e2a492b5063fe9d093nat, 0, 0xfff5f0c7c9848aad9e0b036a9e352245f9de361237b420874b951c4877a96ebnat);
}

proof fn lemma_power_in_pallas()
    ensures
        pow(root_of_pallas() as int, prime_of_143_bits()) % (pasta::pallas_modulus() as int) == 1,
{
    lemma_power_in_pallas_part_2();
    let e = 0x674e41aa25559f3f6806ca7324nat;
    let e = raise_root_pallas(e, 0xfff5f0c7c9848aad9e0b036a9e352245f9de361237b420874b951c4877a96ebnat, 3, 0x1a7932fecc518de9f31b1a60ab58063b68e464afc603121d35d48c215a4da983nat);
    let e = raise_root_pallas(e, 0x1a7932fecc518de9f31b1a60ab58063b68e464afc603121d35d48c215a4da983nat, 3, 0xc4de67ab299785f070280267161967745811d3660a8f01b50c344be63f71b3fnat);
    let e = raise_root_pallas(e, 0xc4de67ab299785f070280267161967745811d3660a8f01b50c344be63f71b3fnat, 0, 0x13520f1d6e26e0e86f9d013dc7661791f26bcbb29600e2395422bc9e6d7466f2nat);
    let e = raise_root_pallas(e, 0x13520f1d6e26e0e86f9d013dc7661791f26bcbb29600e2395422bc9e6d7466f2nat, 2, 0x28906637471e92f4cb6bc58e17fa4e94fb9fa249d27c97e43b15eb183fdf0f5anat);
    let e = raise_root_pallas(e, 0x28906637471e92f4cb6bc58e17fa4e94fb9fa249d27c97e43b15eb183fdf0f5anat, 2, 0x1aa9e8a8ebc49a2e34000b9d221deccd9fdc092c47ad954184bee8d43e400463nat);
    let e = raise_root_pallas(e, 0x1aa9e8a8ebc49a2e34000b9d221deccd9fdc092c47ad954184bee8d43e400463nat, 1, 0x137ffeb7b73abe70ceefabddb6e00b416e2d5aae7f3d9c6c1c7d4e36e657edc2nat);
    let e = raise_root_pallas(e, 0x137ffeb7b73abe70ceefabddb6e00b416e2d5aae7f3d9c6c1c7d4e36e657edc2nat, 2, 0x398ba34392d49c9723e07c2bc238094041fe25d997bf829401b20db6f5ac46b7nat);
    let e = raise_root_pallas(e, 0x398ba34392d49c9723e07c2bc238094041fe25d997bf829401b20db6f5ac46b7nat, 0, 0x177022eaf54c8ac8f7f399c321ec4ca1834918c07313251cdfd75742612584f4nat);
    let e = raise_root_pallas(e, 0x177022eaf54c8ac8f7f399c321ec4ca1834918c07313251cdfd75742612584f4nat, 3, 0x31c4837fc850751db95e3c76f3873acb7a95a12b3714005a1e1d2c7864db5cf5nat);
    let e = raise_root_pallas(e, 0x31c4837fc850751db95e3c76f3873acb7a95a12b3714005a1e1d2c7864db5cf5nat, 1, 0xc6c44090344560255d6814401a61b385d5c29757e2483e3deb41799c225f5f8nat);
    let e = raise_root_pallas(e, 0xc6c44090344560255d6814401a61b385d5c29757e2483e3deb41799c225f5f8nat, 1, 0x2f78368c21025dd352e708e0f8418b7d59ae49ba016af8f462aa80f2b11841f0nat);
    let e = raise_root_pallas(e, 0x2f78368c21025dd352e708e0f8418b7d59ae49ba016af8f462aa80f2b11841f0nat, 1, 0x302940859da1aece2ddf6c89e7af3d23a9d245c59c4d6e4da81bf9e08def9717nat);
    let e = raise_root_pallas(e, 0x302940859da1aece2ddf6c89e7af3d23a9d245c59c4d6e4da81bf9e08def9717nat, 1, 0xe37a7de3a89f6d016a7ae20e72aeee34956e62b192881916bfbc19593a21a2dnat);
    let e = raise_root_pallas(e, 0xe37a7de3a89f6d016a7ae20e72aeee34956e62b192881916bfbc19593a21a2dnat, 0, 0x351380188dec6560606d555195669aa0496c0cd11b4be235b249828d264397ecnat);
    let e = raise_root_pallas(e, 0x351380188dec6560606d555195669aa0496c0cd11b4be235b249828d264397ecnat, 1, 0x36337ea6063010350da77bfb0ec86d3324a3224bae9a7e633b05db115f01bb1dnat);
    let e = raise_root_pallas(e, 0x36337ea6063010350da77bfb0ec86d3324a3224bae9a7e633b05db115f01bb1dnat, 2, 0x3bee96f6cef3f893786916ce8e49a276a467e03412068e5755d7d1f1745eb35bnat);
    let e = raise_root_pallas(e, 0x3bee96f6cef3f893786916ce8e49a276a467e03412068e5755d7d1f1745eb35bnat, 1, 0x39e315e9e208e1a1ea2b9b59dc736805ea420bf79074b2ffea7ca0e233f3f2d7nat);
    let e = raise_root_pallas(e, 0x39e315e9e208e1a1ea2b9b59dc736805ea420bf79074b2ffea7ca0e233f3f2d7nat, 1, 0xf416815724e7449fda9a1fce4529af89c393989da8e04557a79968c5b9dade5nat);
    let e = raise_root_pallas(e, 0xf416815724e7449fda9a1fce4529af89c393989da8e04557a79968c5b9dade5nat, 3, 0xbdd2536e5fda77435734ac4157c1eec6938ae5c679ec6e1a21b225a96bb79d2nat);
    let e = raise_root_pallas(e, 0xbdd2536e5fda77435734ac4157c1eec6938ae5c679ec6e1a21b225a96bb79d2nat, 1, 1);
}

/// The order of the base field of Pallas is prime.
pub proof fn lemma_prime_pallas()
    ensures
        field::is_prime(pasta::pallas_modulus()),
{
    lemma_prime_143_bits();
    lemma_power_in_pallas();
    primality::lemma_prime_by_order(pasta::pallas_modulus(), root_of_pallas() as int, prime_of_143_bits(), 0x1ddc3393b0469879b74d767baeb87ef9010fca1c6e3f21fa32a6f9c9a3d2827aint);
}

spec fn root_of_vesta() -> nat {
    0x2a6929ea8491a0961e04471e6abe23c7cb4125e042950b12d91b56fb91d368aanat
}

spec fn power_in_vesta() -> nat {
    0x2052d46ba0b91cf97b320d42ce1e42f99b3c268f3f6d2e67b3bfe022768b480bnat
}

proof fn raise_root_vesta(e: nat, x: nat, d: nat, y: nat) -> (f: nat)
    requires
        pow(root_of_vesta() as int, e) % (pasta::vesta_modulus() as int) == x,
        d < 4,
        d == 0 ==> (x * x * x * x) % pasta::vesta_modulus() == y,
        d == 1 ==> (x * x * x * x * root_of_vesta()) % pasta::vesta_modulus() == y,
        d == 2 ==> (x * x * x * x * root_of_vesta() * root_of_vesta()) % pasta::vesta_modulus() == y,
        d == 3 ==> (x * x * x * x * root_of_vesta() * root_of_vesta() * root_of_vesta()) % pasta::vesta_modulus() == y,
    ensures
        f == 4 * e + d,
        pow(root_of_vesta() as int, f) % (pasta::vesta_modulus() as int) == y,
{
    primality::lemma_window(pasta::vesta_modulus(), root_of_vesta(), e, x, d, y)
}

proof fn lemma_first_power_in_vesta_part_1()
    ensures
        pow(root_of_vesta() as int, 0x8086fdfbd1a49nat) % (pasta::vesta_modulus() as int) == 0x2764cae5858554b0a9960293170f1f1007214c26cbd8d6c3d03da04b4c5e526enat,
{
    lemma_pow0(root_of_vesta() as int);
    let e = 0nat;
    let e = raise_root_vesta(e, 1, 2, 0x34312b97bf7fb0d00d8419c08a7702c30114001ee0b54b26656dafe4dcc62264nat);
    let e = raise_root_vesta(e, 0x34312b97bf7fb0d00d8419c08a7702c30114001ee0b54b26656dafe4dcc62264nat, 0, 0x8fbc2c8e49f625d91882d6ee506bd664aae3660e981ef1f43940a9fb21cb8b3nat);
    let e = raise_root_vesta(e, 0x8fbc2c8e49f625d91882d6ee506bd664aae3660e981ef1f43940a9fb21cb8b3nat, 0, 0x31e9d5ad2836f4335d88e24207d0eec2da37e633b6b38ed3b074a31904cd1c76nat);
    let e = raise_root_vesta(e, 0x31e9d5ad2836f4335d88e24207d0eec2da37e633b6b38ed3b074a31904cd1c76nat, 0, 0x2b742120f6f000f164d63b745ebbe92cad0ba5f7dad55fa57a8b359cdf472032nat);
    let e = raise_root_vesta(e, 0x2b742120f6f000f164d63b745ebbe92cad0ba5f7dad55fa57a8b359cdf472032nat, 2, 0x2106e415aa8292e46f1ed0aff4b3bfbe0798fbb3969dce5d13bdca8189dde809nat);
    let e = raise_root_vesta(e, 0x2106e415aa8292e46f1ed0aff4b3bfbe0798fbb3969dce5d13bdca8189dde809nat, 0, 0x230227b0e4ddf208c46a7942d4d0f129754259ca003cef0d64d6f60aa86f29afnat);
    let e = raise_root_vesta(e, 0x230227b0e4ddf208c46a7942d4d0f129754259ca003cef0d64d6f60aa86f29afnat, 1, 0x2d19853b02fa5f49e2e2a9c74adf6b5763ef31f1e468d273c580bb9d4e39124nat);
    let e = raise_root_vesta(e, 0x2d19853b02fa5f49e2e2a9c74adf6b5763ef31f1e468d273c580bb9d4e39124nat, 2, 0x1124f246cb2a2adcb8232964eee6085863724ae5784a02163c65d0a76b028bc3nat);
    let e = raise_root_vesta(e, 0x1124f246cb2a2adcb8232964eee6085863724ae5784a02163c65d0a76b028bc3nat, 3, 0x140027ccd347b50ae1b0dc655a07111896ac5eb8b4972246515a5a7a7acb4786nat);
    let e = raise_root_vesta(e, 0x140027ccd347b50ae1b0dc655a07111896ac5eb8b4972246515a5a7a7acb4786nat, 3, 0x385925dbd1ba15a1a2a70160e1f5979431209c16817cbc7dfa31e92bd8e1229enat);
    let e = raise_root_vesta(e, 0x385925dbd1ba15a1a2a70160e1f5979431209c16817cbc7dfa31e92bd8e1229enat, 3, 0x15012aa321eb240fb6b08446dafedfd4a77c0aff5f41f025387049412f166ec9nat);
    let e = raise_root_vesta(e, 0x15012aa321eb240fb6b08446dafedfd4a77c0aff5f41f025387049412f166ec9nat, 1, 0x313191d53caebd837160927b5bffa87a4a7a0db2db28aa1bc960bbaf37b224adnat);
    let e = raise_root_vesta(e, 0x313191d53caebd837160927b5bffa87a4a7a0db2db28aa1bc960bbaf37b224adnat, 3, 0x3c59410b00c451631d0b1515344e4d6d280fbc32d708b2d9d20622ca81082895nat);
    let e = raise_root_vesta(e, 0x3c59410b00c451631d0b1515344e4d6d280fbc32d708b2d9d20622ca81082895nat, 3, 0x30e27c51f13196e2fd98db971c3b35f153d0e03905e9f03df01cc1be48a90a9anat);
    let e = raise_root_vesta(e, 0x30e27c51f13196e2fd98db971c3b35f153d0e03905e9f03df01cc1be48a90a9anat, 2, 0x194087308e34f6b28964490dae1f395d63eacce0760f5b712dd2efd10d5ce959nat);
    let e = raise_root_vesta(e, 0x194087308e34f6b28964490dae1f395d63eacce0760f5b712dd2efd10d5ce959nat, 3, 0x3fd6509d69a7975a4b80e386c78459e79b59d1e2a01c369e73569bbd310ba947nat);
    let e = raise_root_vesta(e, 0x3fd6509d69a7975a4b80e386c78459e79b59d1e2a01c369e73569bbd310ba947nat, 3, 0x111494513a3da823bc5b44b56e99fdd4c6e16e87970a6c6fa7c8c79baeed6d6bnat);
    let e = raise_root_vesta(e, 0x111494513a3da823bc5b44b56e99fdd4c6e16e87970a6c6fa7c8c79baeed6d6bnat, 1, 0xcce43238e66f559cf3c037f5470d41e28a15c75926207cf1161810b3d76eae1nat);
    let e = raise_root_vesta(e, 0xcce43238e66f559cf3c037f5470d41e28a15c75926207cf1161810b3d76eae1nat, 0, 0x2d24d426ec3209add0849f16df3d919016b2bb979efdd28877a8cf727a231d84nat);
    let e = raise_root_vesta(e, 0x2d24d426ec3209add0849f16df3d919016b2bb979efdd28877a8cf727a231d84nat, 1, 0xad7d874382bb4a7f41c53f2b673fbb22fc05e055ef24d03c8181afeea6a9871nat);
    let e = raise_root_vesta(e, 0xad7d874382bb4a7f41c53f2b673fbb22fc05e055ef24d03c8181afeea6a9871nat, 2, 0x23f61f7e6bece1ed0c18deac31638f12a9edf5d79eecec75f09e509128c132a1nat);
    let e = raise_root_vesta(e, 0x23f61f7e6bece1ed0c18deac31638f12a9edf5d79eecec75f09e509128c132a1nat, 2, 0x2854fd0d120affc5671adaec95852969f98c8033e7ad246fa0e670d6952cd33cnat);
    let e = raise_root_vesta(e, 0x2854fd0d120affc5671adaec95852969f98c8033e7ad246fa0e670d6952cd33cnat, 1, 0x24f0a9a769c1f9bb14f765006d306d5a6da9432c18e62d729a93684d541c7be4nat);
    let e = raise_root_vesta(e, 0x24f0a9a769c1f9bb14f765006d306d5a6da9432c18e62d729a93684d541c7be4nat, 0, 0x110badd13769b7bd0e79ff0a0f793e06a7ca85ce719141b12926c887bd9d4761nat);
    let e = raise_root_vesta(e, 0x110badd13769b7bd0e79ff0a0f793e06a7ca85ce719141b12926c887bd9d4761nat, 2, 0x1c8fc6b640d26eb122b6f51c27cfc368c62029dbd288628ca8faa21d846f3101nat);
    let e = raise_root_vesta(e, 0x1c8fc6b640d26eb122b6f51c27cfc368c62029dbd288628ca8faa21d846f3101nat, 1, 0x2764cae5858554b0a9960293170f1f1007214c26cbd8d6c3d03da04b4c5e526enat);
}

proof fn lemma_first_power_in_vesta_part_2()
    ensures
        pow(root_of_vesta() as int, 0x8086fdfbd1a49f96ed00f553banat) % (pasta::vesta_modulus() as int) == 0x72f5556bbd0e9372b0b0d7e5e5203fde2686fc3c72e951007863786235491d9nat,
{
    lemma_first_power_in_vesta_part_1();
    let e = 0x8086fdfbd1a49nat;
    let e = raise_root_vesta(e, 0x2764cae5858554b0a9960293170f1f1007214c26cbd8d6c3d03da04b4c5e526enat, 3, 0x13df6015c1afa3e267252b9934da33680163c884db0be174decd0afc5fcc4c9anat);
    let e = raise_root_vesta(e, 0x13df6015c1afa3e267252b9934da33680163c884db0be174decd0afc5fcc4c9anat, 3, 0x2cf31d6738a44a55a5c61d03aa120d2d4f15e4e756969fed05276288d8f0ba14nat);
    let e = raise_root_vesta(e, 0x2cf31d6738a44a55a5c61d03aa120d2d4f15e4e756969fed05276288d8f0ba14nat, 2, 0x3f20d6c38a58c61de2d73e313841cb6ef0c939655289ad2c7b4a0d56dda40793nat);
    let e = raise_root_vesta(e, 0x3f20d6c38a58c61de2d73e313841cb6ef0c939655289ad2c7b4a0d56dda40793nat, 1, 0xc1c76eb9a1fd1d6933e11be5a3989f888cd7832644f9f036792593cea480f70nat);
    let e = raise_root_vesta(e, 0xc1c76eb9a1fd1d6933e11be5a3989f888cd7832644f9f036792593cea480f70nat, 1, 0x3d38d93f8bf9efaf643435ea55a89fc5b2a1cba88bdbf83cfa4ec348940a7bddnat);
    let e = raise_root_vesta(e, 0x3d38d93f8bf9efaf643435ea55a89fc5b2a1cba88bdbf83cfa4ec348940a7bddnat, 2, 0xa26212d34f84301f5e7aea949cbf548be7f912b6e351d4b2e4c95bf3ce47d9cnat);
    let e = raise_root_vesta(e, 0xa26212d34f84301f5e7aea949cbf548be7f912b6e351d4b2e4c95bf3ce47d9cnat, 3, 0x81858dd3d1021be4480d130e5874a4d8c3e02546cb99fa01b42d962b753b6b1nat);
    let e = raise_root_vesta(e, 0x81858dd3d1021be4480d130e5874a4d8c3e02546cb99fa01b42d962b753b6b1nat, 2, 0x177a2ad312f1203de3920b5971b8d4b6a4fe3934a81aa0f294cc41b1aab95917nat);
    let e = raise_root_vesta(e, 0x177a2ad312f1203de3920b5971b8d4b6a4fe3934a81aa0f294cc41b1aab95917nat, 3, 0x21586ca6b1db850fb7d333192c1f8d1048d303379165d1ff38e01c7cb4fdb888nat);
    let e = raise_root_vesta(e, 0x21586ca6b1db850fb7d333192c1f8d1048d303379165d1ff38e01c7cb4fdb888nat, 1, 0x1dfc2851bf331c49e6f7a0ae4f5afab5f3ed71c9b4637da0ee72f8742a7546fnat);
    let e = raise_root_vesta(e, 0x1dfc2851bf331c49e6f7a0ae4f5afab5f3ed71c9b4637da0ee72f8742a7546fnat, 0, 0x50c663f0940375f27db013895d2e2fc389756d7eb0043d44a405eded1665410nat);
    let e = raise_root_vesta(e, 0x50c663f0940375f27db013895d2e2fc389756d7eb0043d44a405eded1665410nat, 0, 0x19a94ad724ad5365bf007fe955ac8b62485cc0148f1d0c824f04f6b70f4ced15nat);
    let e = raise_root_vesta(e, 0x19a94ad724ad5365bf007fe955ac8b62485cc0148f1d0c824f04f6b70f4ced15nat, 0, 0x1f9be598239cf94663bdb1e3b6022eaa00222fcc7bc1ce3ba4d1e93f2c5198anat);
    let e = raise_root_vesta(e, 0x1f9be598239cf94663bdb1e3b6022eaa00222fcc7bc1ce3ba4d1e93f2c5198anat, 0, 0x3d8611e11d8a388b0bc10d56822f59fe4af4c608dd3f261e71818363749c40bdnat);
    let e = raise_root_vesta(e, 0x3d8611e11d8a388b0bc10d56822f59fe4af4c608dd3f261e71818363749c40bdnat, 3, 0x374381998e83e6f413de18c5b67a5d274d581c5b801dd2f9d33e704acd46970enat);
    let e = raise_root_vesta(e, 0x374381998e83e6f413de18c5b67a5d274d581c5b801dd2f9d33e704acd46970enat, 3, 0x1bc803d2826ad74940c3c7ba715e7259695d43b037560a2da594710a8283ff52nat);
    let e = raise_root_vesta(e, 0x1bc803d2826ad74940c3c7ba715e7259695d43b037560a2da594710a8283ff52nat, 1, 0x2b80ddbba0624d5176f1d9f6979f7ad77700abeaef6e891ce49b57507d191e4bnat);
    let e = raise_root_vesta(e, 0x2b80ddbba0624d5176f1d9f6979f7ad77700abeaef6e891ce49b57507d191e4bnat, 1, 0xf8d2fb3c214b807d24b956d06a39d323b6c5442a71cd9cdb14974a0d2941dcanat);
    let e = raise_root_vesta(e, 0xf8d2fb3c214b807d24b956d06a39d323b6c5442a71cd9cdb14974a0d2941dcanat, 1, 0x2bedccacb6cbd3a038254f9d749cb4d212e31c97fffaa31241972f7f430b23e2nat);
    let e = raise_root_vesta(e, 0x2bedccacb6cbd3a038254f9d749cb4d212e31c97fffaa31241972f7f430b23e2nat, 1, 0x1ee5f61c957452a78920d0e5159386e331b271ae01a1b97abd1414fe99d5b197nat);
    let e = raise_root_vesta(e, 0x1ee5f61c957452a78920d0e5159386e331b271ae01a1b97abd1414fe99d5b197nat, 0, 0x16121920fdd118213dc931bf6ada40ede7058cdb0c5f5c41aa51e70b459b0f90nat);
    let e = raise_root_vesta(e, 0x16121920fdd118213dc931bf6ada40ede7058cdb0c5f5c41aa51e70b459b0f90nat, 3, 0xb64996a21b52fc72093f1776b8fe632c1f91e326d07971403b918d3c739ff85nat);
    let e = raise_root_vesta(e, 0xb64996a21b52fc72093f1776b8fe632c1f91e326d07971403b918d3c739ff85nat, 2, 0x193781df28dd4761cdbe0e0c0c961fe0120760b84dfe6952946a4aa4ef071bccnat);
    let e = raise_root_vesta(e, 0x193781df28dd4761cdbe0e0c0c961fe0120760b84dfe6952946a4aa4ef071bccnat, 3, 0x203d199b7c23dff389379c36b54c416175a549d51a8967afbb2d8c23b73910fcnat);
    let e = raise_root_vesta(e, 0x203d199b7c23dff389379c36b54c416175a549d51a8967afbb2d8c23b73910fcnat, 2, 0x3895c4b3f67431f3e052ac97ed8b33be6f97e5cc483ab25ac9eeebea6703de89nat);
    let e = raise_root_vesta(e, 0x3895c4b3f67431f3e052ac97ed8b33be6f97e5cc483ab25ac9eeebea6703de89nat, 2, 0x72f5556bbd0e9372b0b0d7e5e5203fde2686fc3c72e951007863786235491d9nat);
}

proof fn lemma_first_power_in_vesta()
    ensures
        pow(root_of_vesta() as int, prime_of_114_bits()) % (pasta::vesta_modulus() as int) == 0x2052d46ba0b91cf97b320d42ce1e42f99b3c268f3f6d2e67b3bfe022768b480bnat,
{
    lemma_first_power_in_vesta_part_2();
    let e = 0x8086fdfbd1a49f96ed00f553banat;
    let e = raise_root_vesta(e, 0x72f5556bbd0e9372b0b0d7e5e5203fde2686fc3c72e951007863786235491d9nat, 1, 0x20e1425aca2e80465e4e2868e49db8668e7b442c1873f0295cf4962a1aa1035dnat);
    let e = raise_root_vesta(e, 0x20e1425aca2e80465e4e2868e49db8668e7b442c1873f0295cf4962a1aa1035dnat, 3, 0xc3ec06ac211ee8754f3f3c3a232392fc059ac12ac0a8b89c15d7faf51dd73b2nat);
    let e = raise_root_vesta(e, 0xc3ec06ac211ee8754f3f3c3a232392fc059ac12ac0a8b89c15d7faf51dd73b2nat, 0, 0x2ded8aeb3d2c773ea693489ba27166c2394aef5ae6f958d8886246ad057dbcbdnat);
    let e = raise_root_vesta(e, 0x2ded8aeb3d2c773ea693489ba27166c2394aef5ae6f958d8886246ad057dbcbdnat, 3, 0x48afe7f8f6095cc7deaf309d14c757429d83df7f828a52c8c9294c797f0e7f5nat);
    let e = raise_root_vesta(e, 0x48afe7f8f6095cc7deaf309d14c757429d83df7f828a52c8c9294c797f0e7f5nat, 1, 0x2052d46ba0b91cf97b320d42ce1e42f99b3c268f3f6d2e67b3bfe022768b480bnat);
}

proof fn raise_power_vesta(e: nat, x: nat, d: nat, y: nat) -> (f: nat)
    requires
        pow(power_in_vesta() as int, e) % (pasta::vesta_modulus() as int) == x,
        d < 4,
        d == 0 ==> (x * x * x * x) % pasta::vesta_modulus() == y,
        d == 1 ==> (x * x * x * x * power_in_vesta()) % pasta::vesta_modulus() == y,
        d == 2 ==> (x * x * x * x * power_in_vesta() * power_in_vesta()) % pasta::vesta_modulus() == y,
        d == 3 ==> (x * x * x * x * power_in_vesta() * power_in_vesta() * power_in_vesta()) % pasta::vesta_modulus() == y,
    ensures
        f == 4 * e + d,
        pow(power_in_vesta() as int, f) % (pasta::vesta_modulus() as int) == y,
{
    primality::lemma_window(pasta::vesta_modulus(), power_in_vesta(), e, x, d, y)
}

proof fn lemma_both_powers_in_vesta()
    ensures
        pow(power_in_vesta() as int, 24859) % (pasta::vesta_modulus() as int) == 1,
{
    lemma_pow0(power_in_vesta() as int);
    let e = 0nat;
    let e = raise_power_vesta(e, 1, 1, 0x2052d46ba0b91cf97b320d42ce1e42f99b3c268f3f6d2e67b3bfe022768b480bnat);
    let e = raise_power_vesta(e, 0x2052d46ba0b91cf97b320d42ce1e42f99b3c268f3f6d2e67b3bfe022768b480bnat, 2, 0x91929efb43112fa1488ead351ffae8085f32192fe90e31de6d4b6a7a0d4c347nat);
    let e = raise_power_vesta(e, 0x91929efb43112fa1488ead351ffae8085f32192fe90e31de6d4b6a7a0d4c347nat, 0, 0x35e9259cf4f14c67c7774506af88607e1d0afa69ada8430b7e2eab602a90769bnat);
    let e = raise_power_vesta(e, 0x35e9259cf4f14c67c7774506af88607e1d0afa69ada8430b7e2eab602a90769bnat, 1, 0xb52623cdd5c30272b0db9dcc82df065fb81d10a2eadc0c5e335c87e1f12afc7nat);
    let e = raise_power_vesta(e, 0xb52623cdd5c30272b0db9dcc82df065fb81d10a2eadc0c5e335c87e1f12afc7nat, 0, 0x28a5afeb599938883b44ade4dd9e785e058253a7c5e101125b2797271226941enat);
    let e = raise_power_vesta(e, 0x28a5afeb599938883b44ade4dd9e785e058253a7c5e101125b2797271226941enat, 1, 0x14f7ff9cb863711b1bbf186afede23087396f4b6680a53cb0214d3cae7c3857fnat);
    let e = raise_power_vesta(e, 0x14f7ff9cb863711b1bbf186afede23087396f4b6680a53cb0214d3cae7c3857fnat, 2, 0x244e02add1c22b36d3233468731be02cc4a8e32c0d69f3c1ba1ae4d7c657dfd4nat);
    let e = raise_power_vesta(e, 0x244e02add1c22b36d3233468731be02cc4a8e32c0d69f3c1ba1ae4d7c657dfd4nat, 3, 1);
}

proof fn lemma_second_power_in_vesta()
    ensures
        pow(root_of_vesta() as int, 24859) % (pasta::vesta_modulus() as int) == 0x2fb48bcf042dbe947ae2eb040c5a6188519c3bc7640b1ed6371d0aff05c0603dnat,
{
    lemma_pow0(root_of_vesta() as int);
    let e = 0nat;
    let e = raise_root_vesta(e, 1, 1, 0x2a6929ea8491a0961e04471e6abe23c7cb4125e042950b12d91b56fb91d368aanat);
    let e = raise_root_vesta(e, 0x2a6929ea8491a0961e04471e6abe23c7cb4125e042950b12d91b56fb91d368aanat, 2, 0xfaef7eb0077253ee622cb271601c9db0b7987cfb1dce3e6ec342c9b38709228nat);
    let e = raise_root_vesta(e, 0xfaef7eb0077253ee622cb271601c9db0b7987cfb1dce3e6ec342c9b38709228nat, 0, 0x26904db12b7c6b3d6843fef16db4966e78abba6a2b857bbf79cf6f75f8cb3088nat);
    let e = raise_root_vesta(e, 0x26904db12b7c6b3d6843fef16db4966e78abba6a2b857bbf79cf6f75f8cb3088nat, 1, 0xf0bdaeb3a5f863862d2ff9a1fd022a256d75bbb3f4fd771552fba441d0ee816nat);
    let e = raise_root_vesta(e, 0xf0bdaeb3a5f863862d2ff9a1fd022a256d75bbb3f4fd771552fba441d0ee816nat, 0, 0x105b4523e387eefaa4cacf0e8a0d56a73c7c2980951f54c0db78823fa8b94f79nat);
    let e = raise_root_vesta(e, 0x105b4523e387eefaa4cacf0e8a0d56a73c7c2980951f54c0db78823fa8b94f79nat, 1, 0x2ca490c0c853c20cd4062d8727054050cafe1a06da0482bf7cc868ca9a9a31d0nat);
    let e = raise_root_vesta(e, 0x2ca490c0c853c20cd4062d8727054050cafe1a06da0482bf7cc868ca9a9a31d0nat, 2, 0x202a86a5cf98b4cee835f2946eeab67b699c476206d1cc6d7355b7a06ffdb3dbnat);
    let e = raise_root_vesta(e, 0x202a86a5cf98b4cee835f2946eeab67b699c476206d1cc6d7355b7a06ffdb3dbnat, 3, 0x2fb48bcf042dbe947ae2eb040c5a6188519c3bc7640b1ed6371d0aff05c0603dnat);
}

/// The order of the base field of Vesta is prime.
pub proof fn lemma_prime_vesta()
    ensures
        field::is_prime(pasta::vesta_modulus()),
{
    lemma_prime_114_bits();
    lemma_prime_24859();
    lemma_first_power_in_vesta();
    lemma_both_powers_in_vesta();
    lemma_second_power_in_vesta();
    primality::lemma_power_of_power(pasta::vesta_modulus(), root_of_vesta(), prime_of_114_bits(), power_in_vesta(), 24859, 1);
    primality::lemma_prime_by_two_orders(pasta::vesta_modulus(), root_of_vesta() as int, prime_of_114_bits(), 24859, 0xc302d1e4cff9f35412e1703a65e9559fnat, 0x17410fec1c20fb5a8dfaa47a71925e37e7e02fa7cd2ec9859dd423434581b49aint, 0x268277fb27dc7f104ea21c29451b6d1f868391eff06da04434f8891b87c2e774int);
}

} // verus!
