//! Certificates that 5 is no cube in the base field of either curve, so that no point
//! of the curve lies on the `x` axis.
//!
//! The powers of 5 are worked out four bits of the exponent at a time.
use crate::certificates;
use crate::fermat;
use crate::field;
use crate::pasta;
use crate::primality;
use vstd::arithmetic::power::lemma_pow0;
use vstd::arithmetic::power::lemma_pow1;
use vstd::arithmetic::power::lemma_pow_adds;
use vstd::arithmetic::power::pow;
use vstd::prelude::*;

verus! {

proof fn lemma_small_powers()
    ensures
        pow(5, 0) == 1,
        pow(5, 1) == 5,
        pow(5, 2) == 25,
        pow(5, 3) == 125,
        pow(5, 4) == 625,
        pow(5, 5) == 3125,
        pow(5, 6) == 15625,
        pow(5, 7) == 78125,
        pow(5, 8) == 390625,
        pow(5, 9) == 1953125,
        pow(5, 10) == 9765625,
        pow(5, 11) == 48828125,
        pow(5, 12) == 244140625,
        pow(5, 13) == 1220703125,
        pow(5, 14) == 6103515625,
        pow(5, 15) == 30517578125,
{
    lemma_pow0(5);
    lemma_pow1(5);
    lemma_pow_adds(5, 1, 1);
    lemma_pow_adds(5, 2, 1);
    lemma_pow_adds(5, 3, 1);
    lemma_pow_adds(5, 4, 1);
    lemma_pow_adds(5, 5, 1);
    lemma_pow_adds(5, 6, 1);
    lemma_pow_adds(5, 7, 1);
    lemma_pow_adds(5, 8, 1);
    lemma_pow_adds(5, 9, 1);
    lemma_pow_adds(5, 10, 1);
    lemma_pow_adds(5, 11, 1);
    lemma_pow_adds(5, 12, 1);
    lemma_pow_adds(5, 13, 1);
    lemma_pow_adds(5, 14, 1);
}

proof fn raise_in_pallas(e: nat, x: nat, d: nat, t: nat, y: nat) -> (f: nat)
    requires
        pow(5, e) % (pasta::pallas_modulus() as int) == x,
        pow(5, d) == t,
        (x * x * x * x * x * x * x * x * x * x * x * x * x * x * x * x * t) % pasta::pallas_modulus()
            == y,
    ensures
        f == 16 * e + d,
        pow(5, f) % (pasta::pallas_modulus() as int) == y,
{
    primality::lemma_wide_window(pasta::pallas_modulus(), 5, e, x, d, t, y)
}

proof fn lemma_power_in_pallas_part_1()
    ensures
        pow(5, 0x15555555555nat) % (pasta::pallas_modulus() as int) == 0x9155509279cea72f60e2560585d6fe04590c0c50009835f418ac1b78a3acee4nat,
{
    lemma_small_powers();
    let e = 0nat;
    let e = raise_in_pallas(e, 1, 1, 5, 5);
    let e = raise_in_pallas(e, 5, 5, 3125, 0x1b1ae4d6e2ef5nat);
    let e = raise_in_pallas(e, 0x1b1ae4d6e2ef5nat, 5, 3125, 0x35ed51d82b1fd88fe4a6e0ff0634088ea4801052192d64254e21b9b4e4c3981enat);
    let e = raise_in_pallas(e, 0x35ed51d82b1fd88fe4a6e0ff0634088ea4801052192d64254e21b9b4e4c3981enat, 5, 3125, 0x84c827c8027f8add376751d56ab401536e16e48e34a0bbc1d21cf2ffd3575c2nat);
    let e = raise_in_pallas(e, 0x84c827c8027f8add376751d56ab401536e16e48e34a0bbc1d21cf2ffd3575c2nat, 5, 3125, 0x3f2a90d8b9c715e9f21ac8770893e6a895c40eb36a9f12457173b86fba0162fanat);
    let e = raise_in_pallas(e, 0x3f2a90d8b9c715e9f21ac8770893e6a895c40eb36a9f12457173b86fba0162fanat, 5, 3125, 0x174279dc3f8f7fbcbaa37763bc02ad1f09b245e208533b64fc3c3cb6afed41b0nat);
    let e = raise_in_pallas(e, 0x174279dc3f8f7fbcbaa37763bc02ad1f09b245e208533b64fc3c3cb6afed41b0nat, 5, 3125, 0x2f6240e59dc66bc83879b003bff8eaa476ba6cdff28ac80c76826e07f3e4b81dnat);
    let e = raise_in_pallas(e, 0x2f6240e59dc66bc83879b003bff8eaa476ba6cdff28ac80c76826e07f3e4b81dnat, 5, 3125, 0x3eb09c2ab2731d4f7c700d57dc2ae172c3c3153fa6b1b9cbc0352e8f11d3f2d1nat);
    let e = raise_in_pallas(e, 0x3eb09c2ab2731d4f7c700d57dc2ae172c3c3153fa6b1b9cbc0352e8f11d3f2d1nat, 5, 3125, 0x91db3beab4acdfea991826b7244c4386eb5d08bfeb4ac18d792f2b7f9510a97nat);
    let e = raise_in_pallas(e, 0x91db3beab4acdfea991826b7244c4386eb5d08bfeb4ac18d792f2b7f9510a97nat, 5, 3125, 0x12b51c01dff7ca9751e24833d285cad81bcaf3356b062730c175f7267dac289cnat);
    let e = raise_in_pallas(e, 0x12b51c01dff7ca9751e24833d285cad81bcaf3356b062730c175f7267dac289cnat, 5, 3125, 0x9155509279cea72f60e2560585d6fe04590c0c50009835f418ac1b78a3acee4nat);
}

proof fn lemma_power_in_pallas_part_2()
    ensures
        pow(5, 0x1555555555555555555555nat) % (pasta::pallas_modulus() as int) == 0x19d3f827722decdb724b4466da72405afa1e92f0c53ecf1d713d894ed202cf67nat,
{
    lemma_small_powers();
    lemma_power_in_pallas_part_1();
    let e = 0x15555555555nat;
    let e = raise_in_pallas(e, 0x9155509279cea72f60e2560585d6fe04590c0c50009835f418ac1b78a3acee4nat, 5, 3125, 0x1a08f522b9c43fdb845662198c3981cf25226df45897036c13bbaccd473ddabfnat);
    let e = raise_in_pallas(e, 0x1a08f522b9c43fdb845662198c3981cf25226df45897036c13bbaccd473ddabfnat, 5, 3125, 0x1db0e3785f2fd5f9a9198e5785703139faa17fc905940fcd6606b65d73d24192nat);
    let e = raise_in_pallas(e, 0x1db0e3785f2fd5f9a9198e5785703139faa17fc905940fcd6606b65d73d24192nat, 5, 3125, 0x2eddda11073acef62a176285201b9ead2807c73a191e39d82fc520f6602132acnat);
    let e = raise_in_pallas(e, 0x2eddda11073acef62a176285201b9ead2807c73a191e39d82fc520f6602132acnat, 5, 3125, 0x2aae75d23c9b5e991fbe916bc6ceb6cce5d869ab9c4fddcff4a6430668e93af2nat);
    let e = raise_in_pallas(e, 0x2aae75d23c9b5e991fbe916bc6ceb6cce5d869ab9c4fddcff4a6430668e93af2nat, 5, 3125, 0x1db863a245669bfd78dec63a03856d4c166115b0c74bbff251b784cc5e02cd86nat);
    let e = raise_in_pallas(e, 0x1db863a245669bfd78dec63a03856d4c166115b0c74bbff251b784cc5e02cd86nat, 5, 3125, 0x2592890868293b7a5734f3e7b4523cf4b3cb09bbecf621d7d6f80eca82bfd38cnat);
    let e = raise_in_pallas(e, 0x2592890868293b7a5734f3e7b4523cf4b3cb09bbecf621d7d6f80eca82bfd38cnat, 5, 3125, 0xa2d2d6172fdbbf1f247a8d57404659708b2da8cbaa6970051702f8a5aee4ee2nat);
    let e = raise_in_pallas(e, 0xa2d2d6172fdbbf1f247a8d57404659708b2da8cbaa6970051702f8a5aee4ee2nat, 5, 3125, 0x17a663e7aa0939bc37fc6dfd369d9d779dc9b26ca9b51c9516450b9c9f7eb165nat);
    let e = raise_in_pallas(e, 0x17a663e7aa0939bc37fc6dfd369d9d779dc9b26ca9b51c9516450b9c9f7eb165nat, 5, 3125, 0x21027f28df6506166a3f34ba204a51333ecd1a3a473563f3a265c47bcca86044nat);
    let e = raise_in_pallas(e, 0x21027f28df6506166a3f34ba204a51333ecd1a3a473563f3a265c47bcca86044nat, 5, 3125, 0x241f20f171daa41c247cd3e986810a9dd47d72151d5d51749df5d2f81b9ec06cnat);
    let e = raise_in_pallas(e, 0x241f20f171daa41c247cd3e986810a9dd47d72151d5d51749df5d2f81b9ec06cnat, 5, 3125, 0x19d3f827722decdb724b4466da72405afa1e92f0c53ecf1d713d894ed202cf67nat);
}

proof fn lemma_power_in_pallas_part_3()
    ensures
        pow(5, 0x155555555555555555555555555555556nat) % (pasta::pallas_modulus() as int) == 0x24fbb2a1066d02c0819849bda6dcfe1959598179a3fc2cefc46de97b1c197469nat,
{
    lemma_small_powers();
    lemma_power_in_pallas_part_2();
    let e = 0x1555555555555555555555nat;
    let e = raise_in_pallas(e, 0x19d3f827722decdb724b4466da72405afa1e92f0c53ecf1d713d894ed202cf67nat, 5, 3125, 0x2f421e7000ec3195ddae6878c5abe24898e74575b06d65d7bb9a763ae9fc5acfnat);
    let e = raise_in_pallas(e, 0x2f421e7000ec3195ddae6878c5abe24898e74575b06d65d7bb9a763ae9fc5acfnat, 5, 3125, 0x1b8c781b95db9e3e2a634bc57234476635060b9229f46324042a0b5f84cdcd14nat);
    let e = raise_in_pallas(e, 0x1b8c781b95db9e3e2a634bc57234476635060b9229f46324042a0b5f84cdcd14nat, 5, 3125, 0x3e29713972799c71a1441886d3954d88cd52e1d6309b5c2f27b1764dcc0d3707nat);
    let e = raise_in_pallas(e, 0x3e29713972799c71a1441886d3954d88cd52e1d6309b5c2f27b1764dcc0d3707nat, 5, 3125, 0x397cb209a8915b3bed8941d746ef0559c245823bcae67c19a8a629a3fdd660bnat);
    let e = raise_in_pallas(e, 0x397cb209a8915b3bed8941d746ef0559c245823bcae67c19a8a629a3fdd660bnat, 5, 3125, 0x113a2d6adac91f7d1672454cf5645a8cc7da0016e27a68515109c7c0af9e98f6nat);
    let e = raise_in_pallas(e, 0x113a2d6adac91f7d1672454cf5645a8cc7da0016e27a68515109c7c0af9e98f6nat, 5, 3125, 0x43da726fbad0315b9dc5c2a340e1396693df47c207f5e5ac806a7498f0c0eabnat);
    let e = raise_in_pallas(e, 0x43da726fbad0315b9dc5c2a340e1396693df47c207f5e5ac806a7498f0c0eabnat, 5, 3125, 0x34881a923638f1d445746919947effade9b73a04c29056987afd40c7d1124b10nat);
    let e = raise_in_pallas(e, 0x34881a923638f1d445746919947effade9b73a04c29056987afd40c7d1124b10nat, 5, 3125, 0x39ef63c7d697b4a24aa0011a1f6ad10abb1214f4b6cc25c5c82d39545208b6bcnat);
    let e = raise_in_pallas(e, 0x39ef63c7d697b4a24aa0011a1f6ad10abb1214f4b6cc25c5c82d39545208b6bcnat, 5, 3125, 0x1dc2720a8286d21ee11accb5a6147b12661ff2bd1a86ee8a05c1b64cbe35116anat);
    let e = raise_in_pallas(e, 0x1dc2720a8286d21ee11accb5a6147b12661ff2bd1a86ee8a05c1b64cbe35116anat, 5, 3125, 0x21588c1dc3533ae7010203861d104323b01f8ba8a13d41c3e95c50ebc3567961nat);
    let e = raise_in_pallas(e, 0x21588c1dc3533ae7010203861d104323b01f8ba8a13d41c3e95c50ebc3567961nat, 6, 15625, 0x24fbb2a1066d02c0819849bda6dcfe1959598179a3fc2cefc46de97b1c197469nat);
}

proof fn lemma_power_in_pallas_part_4()
    ensures
        pow(5, 0x1555555555555555555555555555555560c232feadc4nat) % (pasta::pallas_modulus() as int) == 0x2cbe25027878f8c6bab1a2606ce4f0f594f1b36ca5950b38933825de199d4fe4nat,
{
    lemma_small_powers();
    lemma_power_in_pallas_part_3();
    let e = 0x155555555555555555555555555555556nat;
    let e = raise_in_pallas(e, 0x24fbb2a1066d02c0819849bda6dcfe1959598179a3fc2cefc46de97b1c197469nat, 0, 1, 0x36ce9eafe73bbfeba3c4dc50b60086bdfcd834c7e376a075a073c5c440a05c9cnat);
    let e = raise_in_pallas(e, 0x36ce9eafe73bbfeba3c4dc50b60086bdfcd834c7e376a075a073c5c440a05c9cnat, 12, 244140625, 0xaa24fd384d40ed77568310012be914a36054e91f50c4c272ee4e0dbdbd26bfcnat);
    let e = raise_in_pallas(e, 0xaa24fd384d40ed77568310012be914a36054e91f50c4c272ee4e0dbdbd26bfcnat, 2, 25, 0x21f0970b8072bb9813b6ec96a9ad71e2e71705d037d97309627d98ab64805c06nat);
    let e = raise_in_pallas(e, 0x21f0970b8072bb9813b6ec96a9ad71e2e71705d037d97309627d98ab64805c06nat, 3, 125, 0x3a9edf15ebbb7852938310ebbaf41730e18cbcac77c0ecb0cf7faeb501cdda88nat);
    let e = raise_in_pallas(e, 0x3a9edf15ebbb7852938310ebbaf41730e18cbcac77c0ecb0cf7faeb501cdda88nat, 2, 25, 0xe1723d25a4bb14429cc2c55dcc23e2b5ab8ec4fee4ebc7e1e3a3730325b1694nat);
    let e = raise_in_pallas(e, 0xe1723d25a4bb14429cc2c55dcc23e2b5ab8ec4fee4ebc7e1e3a3730325b1694nat, 15, 30517578125, 0xb885616a6501d7107e4867f5d2002828a577ba33a54f57e026c8fb06d3f11ddnat);
    let e = raise_in_pallas(e, 0xb885616a6501d7107e4867f5d2002828a577ba33a54f57e026c8fb06d3f11ddnat, 14, 6103515625, 0x1559157fd1379ed3a4891cd0088328eb487388b9915eeb0a758ad92859a6125enat);
    let e = raise_in_pallas(e, 0x1559157fd1379ed3a4891cd0088328eb487388b9915eeb0a758ad92859a6125enat, 10, 9765625, 0x3fafb7c7fdcb4072dbdc412bff30d69d010b98af489e5d16d358a5ec120c6485nat);
    let e = raise_in_pallas(e, 0x3fafb7c7fdcb4072dbdc412bff30d69d010b98af489e5d16d358a5ec120c6485nat, 13, 1220703125, 0x3134b7aefb5e28ed334d771353cf8dc79b03115e5bb3c3cf9a779220bed97d32nat);
    let e = raise_in_pallas(e, 0x3134b7aefb5e28ed334d771353cf8dc79b03115e5bb3c3cf9a779220bed97d32nat, 12, 244140625, 0x1ca2fb6a2579edd83550b0eb840299ac5da71e852bf03c711525c2a1b4f9e0c3nat);
    let e = raise_in_pallas(e, 0x1ca2fb6a2579edd83550b0eb840299ac5da71e852bf03c711525c2a1b4f9e0c3nat, 4, 625, 0x2cbe25027878f8c6bab1a2606ce4f0f594f1b36ca5950b38933825de199d4fe4nat);
}

proof fn lemma_power_in_pallas_part_5()
    ensures
        pow(5, 0x1555555555555555555555555555555560c232feadc45309330f104nat) % (pasta::pallas_modulus() as int) == 0x114f9d22d1b34e4de34cbea6ca63cdc704ecb95f713761ea97af3052f0940ddnat,
{
    lemma_small_powers();
    lemma_power_in_pallas_part_4();
    let e = 0x1555555555555555555555555555555560c232feadc4nat;
    let e = raise_in_pallas(e, 0x2cbe25027878f8c6bab1a2606ce4f0f594f1b36ca5950b38933825de199d4fe4nat, 5, 3125, 0x29e85e81485e9c28841b04bb17d945640f6cea9b8874aa7993d0e6eb488493enat);
    let e = raise_in_pallas(e, 0x29e85e81485e9c28841b04bb17d945640f6cea9b8874aa7993d0e6eb488493enat, 3, 125, 0x3cd56f174d2d105010b297b0c9d1bccdba3ea8de4a389304939e5f9271e855d5nat);
    let e = raise_in_pallas(e, 0x3cd56f174d2d105010b297b0c9d1bccdba3ea8de4a389304939e5f9271e855d5nat, 0, 1, 0x2d880dc7b73905a2a3e03165475ee445f5bef536475f502c55eaac9bbe18167anat);
    let e = raise_in_pallas(e, 0x2d880dc7b73905a2a3e03165475ee445f5bef536475f502c55eaac9bbe18167anat, 9, 1953125, 0x3d7497bc886397e1cfac330a012831d7dd4cfe6e203ead252f6a0a2557e4c045nat);
    let e = raise_in_pallas(e, 0x3d7497bc886397e1cfac330a012831d7dd4cfe6e203ead252f6a0a2557e4c045nat, 3, 125, 0x1dda8d7fcc35b1791f45e3d1c8dd4ee6422c86f1d574435db6d1742ba8ed6aafnat);
    let e = raise_in_pallas(e, 0x1dda8d7fcc35b1791f45e3d1c8dd4ee6422c86f1d574435db6d1742ba8ed6aafnat, 3, 125, 0x3da7dda2424d466f3854ef70779864faa691075435b150eaf2c33e52d8f3629anat);
    let e = raise_in_pallas(e, 0x3da7dda2424d466f3854ef70779864faa691075435b150eaf2c33e52d8f3629anat, 0, 1, 0x2ee602d4ab6c0983cc7d76adce5212a30a9cf6311a3b942b349a890d2c24747bnat);
    let e = raise_in_pallas(e, 0x2ee602d4ab6c0983cc7d76adce5212a30a9cf6311a3b942b349a890d2c24747bnat, 15, 30517578125, 0x1dc55e3e43205d243a4c93e297a7e546bee69fbe79f081f0f71ba653a5222d37nat);
    let e = raise_in_pallas(e, 0x1dc55e3e43205d243a4c93e297a7e546bee69fbe79f081f0f71ba653a5222d37nat, 1, 5, 0x23db89499d9497289c09b9d525fd0842a69ca404c5342d5072f173f3dd763061nat);
    let e = raise_in_pallas(e, 0x23db89499d9497289c09b9d525fd0842a69ca404c5342d5072f173f3dd763061nat, 0, 1, 0xc62100ec53c30f9697a5985fcd743e53c8965b83f660f7f4e39c0f4b3dbe948nat);
    let e = raise_in_pallas(e, 0xc62100ec53c30f9697a5985fcd743e53c8965b83f660f7f4e39c0f4b3dbe948nat, 4, 625, 0x114f9d22d1b34e4de34cbea6ca63cdc704ecb95f713761ea97af3052f0940ddnat);
}

proof fn lemma_power_in_pallas()
    ensures
        pow(5, 0x1555555555555555555555555555555560c232feadc45309330f104f00000000nat) % (pasta::pallas_modulus() as int) == 0x2d33357cb532458ed3552a23a8554e5005270d29d19fc7d27b7fd22f0201b547nat,
{
    lemma_small_powers();
    lemma_power_in_pallas_part_5();
    let e = 0x1555555555555555555555555555555560c232feadc45309330f104nat;
    let e = raise_in_pallas(e, 0x114f9d22d1b34e4de34cbea6ca63cdc704ecb95f713761ea97af3052f0940ddnat, 15, 30517578125, 0x16f17da74be27de0a9f4b67c3abe0b7e86d55056c5c252e557315c0d806cac5fnat);
    let e = raise_in_pallas(e, 0x16f17da74be27de0a9f4b67c3abe0b7e86d55056c5c252e557315c0d806cac5fnat, 0, 1, 0x3d071da64dbfe3c0a1e5da2af7e2d2960d90b9fcda64f8942ff69eeb68690911nat);
    let e = raise_in_pallas(e, 0x3d071da64dbfe3c0a1e5da2af7e2d2960d90b9fcda64f8942ff69eeb68690911nat, 0, 1, 0x208329cdfd2ebd5e2121a08150e20db78676262c00fb1b28d45ad59df671249nat);
    let e = raise_in_pallas(e, 0x208329cdfd2ebd5e2121a08150e20db78676262c00fb1b28d45ad59df671249nat, 0, 1, 0x231fbf47286d07eb78c4e5259a5eed913cae8d6f00afcf2e16f503925db9f286nat);
    let e = raise_in_pallas(e, 0x231fbf47286d07eb78c4e5259a5eed913cae8d6f00afcf2e16f503925db9f286nat, 0, 1, 0x16d7f4b95f6fed5f51e35047a37a2f106646a4598d5211d3eca48d59d40f382anat);
    let e = raise_in_pallas(e, 0x16d7f4b95f6fed5f51e35047a37a2f106646a4598d5211d3eca48d59d40f382anat, 0, 1, 0x21404ac3f65a8cff2ade2678f71ccd3500fd973aca265565e2a1ad68882cbb02nat);
    let e = raise_in_pallas(e, 0x21404ac3f65a8cff2ade2678f71ccd3500fd973aca265565e2a1ad68882cbb02nat, 0, 1, 0x29061eb294e8cddd1a91ac1f8917e995ad27db45c7dc23c0d43f3b1dc7b3b7danat);
    let e = raise_in_pallas(e, 0x29061eb294e8cddd1a91ac1f8917e995ad27db45c7dc23c0d43f3b1dc7b3b7danat, 0, 1, 0x9adf478033f6a586fe7727349b24b36717c22c5398bce6c606cb361ccfdb0a9nat);
    let e = raise_in_pallas(e, 0x9adf478033f6a586fe7727349b24b36717c22c5398bce6c606cb361ccfdb0a9nat, 0, 1, 0x2d33357cb532458ed3552a23a8554e5005270d29d19fc7d27b7fd22f0201b547nat);
}

/// 5 is no cube in the base field of Pallas.
pub proof fn lemma_no_cube_in_pallas(x: int)
    ensures
        !field::zero(pasta::pallas_modulus(), x * x * x - 5),
{
    certificates::lemma_prime_pallas();
    lemma_power_in_pallas();
    field::lemma_small_not_zero(pasta::pallas_modulus(), 5);
    fermat::lemma_no_cube(pasta::pallas_modulus(), 5, 0x1555555555555555555555555555555560c232feadc45309330f104f00000000nat, x);
}

proof fn raise_in_vesta(e: nat, x: nat, d: nat, t: nat, y: nat) -> (f: nat)
    requires
        pow(5, e) % (pasta::vesta_modulus() as int) == x,
        pow(5, d) == t,
        (x * x * x * x * x * x * x * x * x * x * x * x * x * x * x * x * t) % pasta::vesta_modulus()
            == y,
    ensures
        f == 16 * e + d,
        pow(5, f) % (pasta::vesta_modulus() as int) == y,
{
    primality::lemma_wide_window(pasta::vesta_modulus(), 5, e, x, d, t, y)
}

proof fn lemma_power_in_vesta_part_1()
    ensures
        pow(5, 0x15555555555nat) % (pasta::vesta_modulus() as int) == 0x1de037887feb32496112d918d297dbf7e6c402a21878ac4d2a86e40f1ea4835dnat,
{
    lemma_small_powers();
    let e = 0nat;
    let e = raise_in_vesta(e, 1, 1, 5, 5);
    let e = raise_in_vesta(e, 5, 5, 3125, 0x1b1ae4d6e2ef5nat);
    let e = raise_in_vesta(e, 0x1b1ae4d6e2ef5nat, 5, 3125, 0x192d71c5903c95f94350d0faac3a2ec785764888d497ccbe97d7ed97a24b3f23nat);
    let e = raise_in_vesta(e, 0x192d71c5903c95f94350d0faac3a2ec785764888d497ccbe97d7ed97a24b3f23nat, 5, 3125, 0x3844d81f0ba14676a6b238b54e2f986c03fd2f614a1f82b0bf32f8257ae03999nat);
    let e = raise_in_vesta(e, 0x3844d81f0ba14676a6b238b54e2f986c03fd2f614a1f82b0bf32f8257ae03999nat, 5, 3125, 0x39dc9502a191c73fc433e1ccfeb35198cdd4be460edca9325434fd203e3efb0nat);
    let e = raise_in_vesta(e, 0x39dc9502a191c73fc433e1ccfeb35198cdd4be460edca9325434fd203e3efb0nat, 5, 3125, 0x179fb5e2c784151926c32787e84db69e27d89f1871397946ad47678446a1a1ddnat);
    let e = raise_in_vesta(e, 0x179fb5e2c784151926c32787e84db69e27d89f1871397946ad47678446a1a1ddnat, 5, 3125, 0x873cc98c51c389127b5e3fffb3e7cbdad7f35b37058e9c8dddc82c5ba5fec9bnat);
    let e = raise_in_vesta(e, 0x873cc98c51c389127b5e3fffb3e7cbdad7f35b37058e9c8dddc82c5ba5fec9bnat, 5, 3125, 0xb75f34ecf917efa9d63418394d3ccfd79954b2f6966e2ca7d5d727d44db3354nat);
    let e = raise_in_vesta(e, 0xb75f34ecf917efa9d63418394d3ccfd79954b2f6966e2ca7d5d727d44db3354nat, 5, 3125, 0x1ad9ac61c70e5777657e5a02a8504434c88582980d1ad17e68009829f7097c58nat);
    let e = raise_in_vesta(e, 0x1ad9ac61c70e5777657e5a02a8504434c88582980d1ad17e68009829f7097c58nat, 5, 3125, 0xbf361ff106a3f077314b8c2c941b28f14258b6d31b695af4e2da4da53ec2e4bnat);
    let e = raise_in_vesta(e, 0xbf361ff106a3f077314b8c2c941b28f14258b6d31b695af4e2da4da53ec2e4bnat, 5, 3125, 0x1de037887feb32496112d918d297dbf7e6c402a21878ac4d2a86e40f1ea4835dnat);
}

proof fn lemma_power_in_vesta_part_2()
    ensures
        pow(5, 0x1555555555555555555555nat) % (pasta::vesta_modulus() as int) == 0x13ff112bb1ee86301604b3b3b09cf5f1466bdfa76d49b64dc01dd9a4d2521790nat,
{
    lemma_small_powers();
    lemma_power_in_vesta_part_1();
    let e = 0x15555555555nat;
    let e = raise_in_vesta(e, 0x1de037887feb32496112d918d297dbf7e6c402a21878ac4d2a86e40f1ea4835dnat, 5, 3125, 0xcc56cb42b4d24d429005ead34a0055c078d7e188ad781e0cc8f9066b4c8e65cnat);
    let e = raise_in_vesta(e, 0xcc56cb42b4d24d429005ead34a0055c078d7e188ad781e0cc8f9066b4c8e65cnat, 5, 3125, 0x114af5f672d0b3d54d79d67d66c5fdca747af0fbd8be3e7efae703162872609dnat);
    let e = raise_in_vesta(e, 0x114af5f672d0b3d54d79d67d66c5fdca747af0fbd8be3e7efae703162872609dnat, 5, 3125, 0x155ddbd5b5443cbeaaf42ad50d9017881f97e377e77bc0da7e0b6f554dcd6bf6nat);
    let e = raise_in_vesta(e, 0x155ddbd5b5443cbeaaf42ad50d9017881f97e377e77bc0da7e0b6f554dcd6bf6nat, 5, 3125, 0x383e96b744bc2176b802cfeea12aae60e6a769334e2ad2b1355c3187d0fdcf5anat);
    let e = raise_in_vesta(e, 0x383e96b744bc2176b802cfeea12aae60e6a769334e2ad2b1355c3187d0fdcf5anat, 5, 3125, 0x39e54e5a1a9211933522e09fb9e8f9a1cea8b724e70c754c169e0cb4da352d08nat);
    let e = raise_in_vesta(e, 0x39e54e5a1a9211933522e09fb9e8f9a1cea8b724e70c754c169e0cb4da352d08nat, 5, 3125, 0x1725dbc14538195b44b55578002edfc75c02896141ba4d7e3cd0f3e9d918a992nat);
    let e = raise_in_vesta(e, 0x1725dbc14538195b44b55578002edfc75c02896141ba4d7e3cd0f3e9d918a992nat, 5, 3125, 0x739154e8abdd5325a6f0dc9713e423efda074e116fd1a92b4b76d8784acb0f2nat);
    let e = raise_in_vesta(e, 0x739154e8abdd5325a6f0dc9713e423efda074e116fd1a92b4b76d8784acb0f2nat, 5, 3125, 0x44110170f87ff93000e4443e8082b14423376e2d7561ad379abf936bfb1055cnat);
    let e = raise_in_vesta(e, 0x44110170f87ff93000e4443e8082b14423376e2d7561ad379abf936bfb1055cnat, 5, 3125, 0x2227289a7bb58db0e0c1c778d1f5046e6f8ac31740acc9a236d7a84ab6e02675nat);
    let e = raise_in_vesta(e, 0x2227289a7bb58db0e0c1c778d1f5046e6f8ac31740acc9a236d7a84ab6e02675nat, 5, 3125, 0x13fa2d351169cfaae88d6ef5c2d13453b28b29978b506b46aae64d1c65630de1nat);
    let e = raise_in_vesta(e, 0x13fa2d351169cfaae88d6ef5c2d13453b28b29978b506b46aae64d1c65630de1nat, 5, 3125, 0x13ff112bb1ee86301604b3b3b09cf5f1466bdfa76d49b64dc01dd9a4d2521790nat);
}

proof fn lemma_power_in_vesta_part_3()
    ensures
        pow(5, 0x155555555555555555555555555555556nat) % (pasta::vesta_modulus() as int) == 0x364c704643d86ce71b655cbc389834d1e4fce684b654307eff031160952655f6nat,
{
    lemma_small_powers();
    lemma_power_in_vesta_part_2();
    let e = 0x1555555555555555555555nat;
    let e = raise_in_vesta(e, 0x13ff112bb1ee86301604b3b3b09cf5f1466bdfa76d49b64dc01dd9a4d2521790nat, 5, 3125, 0x384c2ede6fe344243684c9dea4c945565b93926f179df7fb85282a7069ac296fnat);
    let e = raise_in_vesta(e, 0x384c2ede6fe344243684c9dea4c945565b93926f179df7fb85282a7069ac296fnat, 5, 3125, 0x341e22a37e4b27bdbb199eaf6a6c5f45447566ef021b8a9db5e10847142cfd19nat);
    let e = raise_in_vesta(e, 0x341e22a37e4b27bdbb199eaf6a6c5f45447566ef021b8a9db5e10847142cfd19nat, 5, 3125, 0x3c08ab412d6e39041d338f4b5f49fe7a52e498871b8e26dde7e841d69685866fnat);
    let e = raise_in_vesta(e, 0x3c08ab412d6e39041d338f4b5f49fe7a52e498871b8e26dde7e841d69685866fnat, 5, 3125, 0x209e83948af5b8a51c5b296d7752cb72e0fac2be2e96f6076fc8736ef6d3eb8anat);
    let e = raise_in_vesta(e, 0x209e83948af5b8a51c5b296d7752cb72e0fac2be2e96f6076fc8736ef6d3eb8anat, 5, 3125, 0x3ba86cfbef6bb8b37ffe0f707c32abf4ff95816e8267fff97bf74c8bd6935173nat);
    let e = raise_in_vesta(e, 0x3ba86cfbef6bb8b37ffe0f707c32abf4ff95816e8267fff97bf74c8bd6935173nat, 5, 3125, 0x890dd5df0b0178f329782ed4cb08a15548950a9095c9893dd69ce9586fdf747nat);
    let e = raise_in_vesta(e, 0x890dd5df0b0178f329782ed4cb08a15548950a9095c9893dd69ce9586fdf747nat, 5, 3125, 0x29173c22dc91ceef4b3903d2528a6bdc853f8e95d96557f3cbf7d85d875dabe2nat);
    let e = raise_in_vesta(e, 0x29173c22dc91ceef4b3903d2528a6bdc853f8e95d96557f3cbf7d85d875dabe2nat, 5, 3125, 0x31bb4019a15624862d9296675b2510140cd66e0bcfb9701a1e555c8fc7c49f43nat);
    let e = raise_in_vesta(e, 0x31bb4019a15624862d9296675b2510140cd66e0bcfb9701a1e555c8fc7c49f43nat, 5, 3125, 0x31f14c1a7bb8857c2fbd9ac8d3b2c778030ec94956eef32537b6a83063debf47nat);
    let e = raise_in_vesta(e, 0x31f14c1a7bb8857c2fbd9ac8d3b2c778030ec94956eef32537b6a83063debf47nat, 5, 3125, 0x2192ebc4a94c822e746d217e98d77792a4b42a5dace037478701c38626168934nat);
    let e = raise_in_vesta(e, 0x2192ebc4a94c822e746d217e98d77792a4b42a5dace037478701c38626168934nat, 6, 15625, 0x364c704643d86ce71b655cbc389834d1e4fce684b654307eff031160952655f6nat);
}

proof fn lemma_power_in_vesta_part_4()
    ensures
        pow(5, 0x1555555555555555555555555555555560c232feaddcnat) % (pasta::vesta_modulus() as int) == 0x3a099717070c1c5b759725d78dca903f17f52fdfba73a33879a5d01f86520310nat,
{
    lemma_small_powers();
    lemma_power_in_vesta_part_3();
    let e = 0x155555555555555555555555555555556nat;
    let e = raise_in_vesta(e, 0x364c704643d86ce71b655cbc389834d1e4fce684b654307eff031160952655f6nat, 0, 1, 0x160165b4c8256b00d3cfe2a3619f5f62ccb443b5f6d5c4250e723b8a154e4928nat);
    let e = raise_in_vesta(e, 0x160165b4c8256b00d3cfe2a3619f5f62ccb443b5f6d5c4250e723b8a154e4928nat, 12, 244140625, 0x2bcfc20096b43560569437a424cbcd1ebb627bc9d48fdf199ccd40a06ccab6d8nat);
    let e = raise_in_vesta(e, 0x2bcfc20096b43560569437a424cbcd1ebb627bc9d48fdf199ccd40a06ccab6d8nat, 2, 25, 0xdccf821ad3bc45e3f6daf73e118a91719a469fbdff12c9118a86aea16a53b63nat);
    let e = raise_in_vesta(e, 0xdccf821ad3bc45e3f6daf73e118a91719a469fbdff12c9118a86aea16a53b63nat, 3, 125, 0x3ad33636ae182e8080d91190657a045ec604d4b895aebbdc38709ba41a7070a5nat);
    let e = raise_in_vesta(e, 0x3ad33636ae182e8080d91190657a045ec604d4b895aebbdc38709ba41a7070a5nat, 2, 25, 0x2fc96defd1b4ff971bde4cfc0ba350784c0e9cc0ab2ae6d801bcbab9dc0469b3nat);
    let e = raise_in_vesta(e, 0x2fc96defd1b4ff971bde4cfc0ba350784c0e9cc0ab2ae6d801bcbab9dc0469b3nat, 15, 30517578125, 0xdf94dd766e1247e52ad593fa739da3364df0c3a852e433cfe364cff02506642nat);
    let e = raise_in_vesta(e, 0xdf94dd766e1247e52ad593fa739da3364df0c3a852e433cfe364cff02506642nat, 14, 6103515625, 0x90b3238aa0f89e0c0afa3b4cbc6a9ab5a52c1585875bf2374f5240d53ac44b6nat);
    let e = raise_in_vesta(e, 0x90b3238aa0f89e0c0afa3b4cbc6a9ab5a52c1585875bf2374f5240d53ac44b6nat, 10, 9765625, 0x2683c7140641021d2b019f16e790bf74f288fe9e7db270c2c3ecfe4023f26eaenat);
    let e = raise_in_vesta(e, 0x2683c7140641021d2b019f16e790bf74f288fe9e7db270c2c3ecfe4023f26eaenat, 13, 1220703125, 0x2d769fe8567181fefb1ba7d5fc178c33142d81b81abf3e5acb870a5093ea2399nat);
    let e = raise_in_vesta(e, 0x2d769fe8567181fefb1ba7d5fc178c33142d81b81abf3e5acb870a5093ea2399nat, 13, 1220703125, 0xcca5c1578dac6e9df35331973a13611f933957f5fdfd45f537872d0592f61f1nat);
    let e = raise_in_vesta(e, 0xcca5c1578dac6e9df35331973a13611f933957f5fdfd45f537872d0592f61f1nat, 12, 244140625, 0x3a099717070c1c5b759725d78dca903f17f52fdfba73a33879a5d01f86520310nat);
}

proof fn lemma_power_in_vesta_part_5()
    ensures
        pow(5, 0x1555555555555555555555555555555560c232feaddc3849d96cf90nat) % (pasta::vesta_modulus() as int) == 0x2a349cd7a2ac1acfe6db179b818edd0654254cfe72aa832e0add45e7291beaaenat,
{
    lemma_small_powers();
    lemma_power_in_vesta_part_4();
    let e = 0x1555555555555555555555555555555560c232feaddcnat;
    let e = raise_in_vesta(e, 0x3a099717070c1c5b759725d78dca903f17f52fdfba73a33879a5d01f86520310nat, 3, 125, 0x788f13fa701622d5b1bf01b6514f42ed6e43793110e7567ba8e319c6039b5f2nat);
    let e = raise_in_vesta(e, 0x788f13fa701622d5b1bf01b6514f42ed6e43793110e7567ba8e319c6039b5f2nat, 8, 390625, 0x2f0bec179c1c0720c324b529e367bee938b647e5adcc27dbb8bdd630e9c59ce9nat);
    let e = raise_in_vesta(e, 0x2f0bec179c1c0720c324b529e367bee938b647e5adcc27dbb8bdd630e9c59ce9nat, 4, 625, 0xf7374ff50021f7c64c860fd8d0c513f22943e4b596e7aa305d27fc8ba69e82fnat);
    let e = raise_in_vesta(e, 0xf7374ff50021f7c64c860fd8d0c513f22943e4b596e7aa305d27fc8ba69e82fnat, 9, 1953125, 0x1592cb2ea2b90088f62966680c7cf0d6a529ca8c2f60c2fcfb32709ab8a87413nat);
    let e = raise_in_vesta(e, 0x1592cb2ea2b90088f62966680c7cf0d6a529ca8c2f60c2fcfb32709ab8a87413nat, 13, 1220703125, 0xb62629de899af9c405a67055f00768da8d5998702f03f0e717fe6fe586edcbenat);
    let e = raise_in_vesta(e, 0xb62629de899af9c405a67055f00768da8d5998702f03f0e717fe6fe586edcbenat, 9, 1953125, 0x2ac0c8dc13d1df62af4669fdd0b4c04f997caba92838a16e8fa16bb14c32b62bnat);
    let e = raise_in_vesta(e, 0x2ac0c8dc13d1df62af4669fdd0b4c04f997caba92838a16e8fa16bb14c32b62bnat, 6, 15625, 0x249e40cb4fd0b88a80fd359d61f1748797fd2182ef5564d9910cbc6e7b11f2e6nat);
    let e = raise_in_vesta(e, 0x249e40cb4fd0b88a80fd359d61f1748797fd2182ef5564d9910cbc6e7b11f2e6nat, 12, 244140625, 0x2bc0fcd88a548900833eaa5a79afdbab331bde954f21804bdc60a718361f8303nat);
    let e = raise_in_vesta(e, 0x2bc0fcd88a548900833eaa5a79afdbab331bde954f21804bdc60a718361f8303nat, 15, 30517578125, 0x394f8388473d581f338c45fd3d7df7a9ea65bd70e1fccbe341a9456575faeb53nat);
    let e = raise_in_vesta(e, 0x394f8388473d581f338c45fd3d7df7a9ea65bd70e1fccbe341a9456575faeb53nat, 9, 1953125, 0x17a8cd28044d41b84405ceaf54c28bf65da9b525f729ca509b5053d8632fcbbnat);
    let e = raise_in_vesta(e, 0x17a8cd28044d41b84405ceaf54c28bf65da9b525f729ca509b5053d8632fcbbnat, 0, 1, 0x2a349cd7a2ac1acfe6db179b818edd0654254cfe72aa832e0add45e7291beaaenat);
}

proof fn lemma_power_in_vesta()
    ensures
        pow(5, 0x1555555555555555555555555555555560c232feaddc3849d96cf90b00000000nat) % (pasta::vesta_modulus() as int) == 0x6819a58283e528e511db4d81cf70f5a0fed467d47c033af2aa9d2e050aa0e4fnat,
{
    lemma_small_powers();
    lemma_power_in_vesta_part_5();
    let e = 0x1555555555555555555555555555555560c232feaddc3849d96cf90nat;
    let e = raise_in_vesta(e, 0x2a349cd7a2ac1acfe6db179b818edd0654254cfe72aa832e0add45e7291beaaenat, 11, 48828125, 0x21a3623694ce009a0eb4813e715f18245236ee595d40da00c9758f4b8eb235aanat);
    let e = raise_in_vesta(e, 0x21a3623694ce009a0eb4813e715f18245236ee595d40da00c9758f4b8eb235aanat, 0, 1, 0x3397bfb465b878f1e36aaea383ba6961b6c3f99af38276c533771bf36dcf2fb2nat);
    let e = raise_in_vesta(e, 0x3397bfb465b878f1e36aaea383ba6961b6c3f99af38276c533771bf36dcf2fb2nat, 0, 1, 0x201fcc820e4d281df5110de6379ecb5c8f6e7f081cfe963c75bdf930ee403a28nat);
    let e = raise_in_vesta(e, 0x201fcc820e4d281df5110de6379ecb5c8f6e7f081cfe963c75bdf930ee403a28nat, 0, 1, 0x1547af19faf25cd83feaa16857e30a6d7f64784c173c3989f63df447a1553278nat);
    let e = raise_in_vesta(e, 0x1547af19faf25cd83feaa16857e30a6d7f64784c173c3989f63df447a1553278nat, 0, 1, 0x155777a6ffd9a749d187de5cdeec214c25487d0e66f8640ed9c67664859e6e75nat);
    let e = raise_in_vesta(e, 0x155777a6ffd9a749d187de5cdeec214c25487d0e66f8640ed9c67664859e6e75nat, 0, 1, 0x35fd769f74aacf7be1be265a0bcdf687509d4f2742346534e2406faa478e0976nat);
    let e = raise_in_vesta(e, 0x35fd769f74aacf7be1be265a0bcdf687509d4f2742346534e2406faa478e0976nat, 0, 1, 0x10a733cdffbc3fbef8fc13e3fd938cfde3c6a5fa2992f2614b65fbe9401ebca8nat);
    let e = raise_in_vesta(e, 0x10a733cdffbc3fbef8fc13e3fd938cfde3c6a5fa2992f2614b65fbe9401ebca8nat, 0, 1, 0x11446c227d1237ab7377b869634d523cfae8fdd16cacaf9b72cd0699bb05a00anat);
    let e = raise_in_vesta(e, 0x11446c227d1237ab7377b869634d523cfae8fdd16cacaf9b72cd0699bb05a00anat, 0, 1, 0x6819a58283e528e511db4d81cf70f5a0fed467d47c033af2aa9d2e050aa0e4fnat);
}

/// 5 is no cube in the base field of Vesta.
pub proof fn lemma_no_cube_in_vesta(x: int)
    ensures
        !field::zero(pasta::vesta_modulus(), x * x * x - 5),
{
    certificates::lemma_prime_vesta();
    lemma_power_in_vesta();
    field::lemma_small_not_zero(pasta::vesta_modulus(), 5);
    fermat::lemma_no_cube(pasta::vesta_modulus(), 5, 0x1555555555555555555555555555555560c232feaddc3849d96cf90b00000000nat, x);
}

} // verus!
