//! Subnet allocation: derive the minimal prefix length for a host count and
//! compute one subnet plus the next free address from a seed address.

use vstd::prelude::*;
use vstd::arithmetic::power2::{
    pow2,
    lemma_pow2_pos,
    lemma_pow2_strictly_increases,
    lemma_pow2_unfold,
    lemma2_to64,
};
use crate::ipv4::Ipv4Addr;

verus! {

/// Why an allocation request was rejected.
#[derive(Debug, Clone, Copy, PartialEq, Eq)]
pub enum AllocationError {
    /// The requested host count leaves no room for a usable range: a block
    /// must hold a network address and a broadcast address besides its
    /// hosts, so requests for fewer than two hosts are rejected.
    InvalidHostCount,
    /// The subnet, or the next free address after it, would extend past the
    /// top of the 32-bit address space.
    AddressSpaceExhausted,
}

/// The ceiling of the base-two logarithm: the smallest `k` with
/// `pow2(k) >= n`, and `0` for `n <= 1`.
pub open spec fn clog2(n: int) -> nat
    decreases n,
{
    if n <= 1 {
        0
    } else {
        (1 + clog2((n + 1) / 2)) as nat
    }
}

/// The prefix length whose block is the smallest power of two holding
/// `num_hosts` addresses.
pub open spec fn spec_prefix_len(num_hosts: int) -> int {
    32 - clog2(num_hosts)
}

/// The size of the address block for a prefix length: `2^(32 - prefix)`.
pub open spec fn spec_increment(prefix_len: int) -> int
    recommends
        0 <= prefix_len <= 32,
{
    pow2((32 - prefix_len) as nat) as int
}

/// The address immediately after the subnet allocated for `num_hosts` at
/// `seed`: the seed of the following allocation.
pub open spec fn spec_next_addr(seed: int, num_hosts: int) -> int {
    seed + spec_increment(spec_prefix_len(num_hosts))
}

/// The broadcast address of the subnet allocated for `num_hosts` at `seed`.
pub open spec fn spec_broadcast(seed: int, num_hosts: int) -> int {
    spec_next_addr(seed, num_hosts) - 1
}

/// An allocation request succeeds exactly when it asks room for a usable
/// range and the block, together with the next free address after it, stays
/// inside the 32-bit address space.
pub open spec fn can_allocate(seed: int, num_hosts: int) -> bool {
    &&& 2 <= num_hosts <= u32::MAX
    &&& 0 <= seed <= 0xFFFF_FFFF
    &&& spec_next_addr(seed, num_hosts) <= 0xFFFF_FFFF
}

/// The invariants of every produced subnet, for the request `num_hosts` it
/// was computed from: the usable range starts one past the network address,
/// the broadcast closes the block of `2^(32 - mask_length)` addresses, the
/// usable range ends one before it, the host count is the block size less
/// the two reserved addresses, and the block is the smallest power of two
/// holding the requested hosts.
pub open spec fn subnet_wf(s: Subnet, num_hosts: int) -> bool {
    let inc = spec_increment(s.mask_length as int);
    &&& 1 <= s.mask_length <= 31
    &&& s.start@ == s.address@ + 1
    &&& s.broadcast@ == s.address@ + inc - 1
    &&& s.end@ == s.broadcast@ - 1
    &&& s.hosts == inc - 2
    &&& inc >= num_hosts
    &&& inc < 2 * num_hosts
}

/// Generates subnets sequentially from a seed network address and a number
/// of required hosts per subnet.
pub struct Calculator;

/// A computed subnet: network address, prefix length, usable range,
/// broadcast address and usable host count.
#[derive(Debug, PartialEq, Clone, Copy)]
pub struct Subnet {
    pub address: Ipv4Addr,
    pub mask_length: u32,
    pub start: Ipv4Addr,
    pub end: Ipv4Addr,
    pub broadcast: Ipv4Addr,
    pub hosts: u32,
}

/// `clog2(n)` is a base-two ceiling logarithm: `pow2(clog2(n))` reaches `n`
/// and the next smaller power of two does not.
pub proof fn lemma_clog2(n: int)
    requires
        n >= 1,
    ensures
        pow2(clog2(n)) >= n,
        clog2(n) >= 1 ==> pow2((clog2(n) - 1) as nat) < n,
    decreases n,
{
    if n <= 1 {
        assert(pow2(0) == 1) by {
            lemma2_to64();
        }
    } else {
        let m = (n + 1) / 2;
        assert(2 * m == n + 1 - ((n + 1) % 2));
        lemma_clog2(m);
        assert(clog2(n) == 1 + clog2(m));
        lemma_pow2_unfold(clog2(n));
        assert(pow2(clog2(n)) == 2 * pow2(clog2(m)));
        assert(pow2(clog2(n)) >= n);
        if clog2(m) == 0 {
            assert(pow2(0) == 1) by {
                lemma2_to64();
            }
            assert((clog2(n) - 1) as nat == 0);
        } else {
            lemma_pow2_unfold(clog2(m));
            assert(pow2(clog2(m)) == 2 * pow2((clog2(m) - 1) as nat));
            assert(pow2(clog2(m)) < 2 * m);
            if (n + 1) % 2 == 0 {
                // n is odd while pow2(clog2(m)) is even, so reaching n + 1 - 1
                // exactly is impossible.
                assert(n == 2 * m - 1);
                assert(pow2(clog2(m)) != n);
            }
            assert(pow2((clog2(n) - 1) as nat) < n);
        }
    }
}

/// Powers of two are monotone in the exponent.
pub proof fn lemma_pow2_le(e1: nat, e2: nat)
    requires
        e1 <= e2,
    ensures
        pow2(e1) <= pow2(e2),
{
    if e1 < e2 {
        lemma_pow2_strictly_increases(e1, e2);
    }
}

/// `clog2(n)` is the only exponent whose power of two reaches `n` while the
/// next smaller one does not.
pub proof fn lemma_clog2_unique(n: int, k: nat)
    requires
        n >= 1,
        pow2(k) >= n,
        k >= 1 ==> pow2((k - 1) as nat) < n,
    ensures
        k == clog2(n),
{
    lemma_clog2(n);
    if k < clog2(n) {
        lemma_pow2_le(k, (clog2(n) - 1) as nat);
        assert(false);
    }
    if k > clog2(n) {
        lemma_pow2_le(clog2(n), (k - 1) as nat);
        assert(false);
    }
}

/// Is `n` a power of two, or one less than a power of two? For these host
/// counts the block chosen by `spec_prefix_len` holds the hosts themselves
/// but not the two reserved addresses on top of them.
pub open spec fn near_pow2(n: int) -> bool {
    exists|k: nat| n == pow2(k) || n + 1 == pow2(k)
}

/// Minimality of the derived prefix length: away from the boundary counts
/// `near_pow2` names, the chosen block holds the requested hosts beyond its
/// two reserved addresses, while the next longer prefix (half the block)
/// does not.
pub proof fn lemma_prefix_minimality(num_hosts: int)
    requires
        1 <= num_hosts <= 0x4000_0000,
        !near_pow2(num_hosts),
    ensures
        spec_increment(spec_prefix_len(num_hosts)) - 2 >= num_hosts,
        spec_increment(spec_prefix_len(num_hosts) + 1) - 2 < num_hosts,
{
    let k = clog2(num_hosts);
    lemma_clog2(num_hosts);
    assert(num_hosts != pow2(k) && num_hosts + 1 != pow2(k));
    assert(pow2(k) >= num_hosts + 2);
    assert(k >= 1) by {
        assert(pow2(0) == 1) by {
            lemma2_to64();
        }
    }
    assert(spec_increment(spec_prefix_len(num_hosts)) == pow2(k));
    assert(spec_increment(spec_prefix_len(num_hosts) + 1) == pow2((k - 1) as nat));
    assert(pow2((k - 1) as nat) < num_hosts);
}

/// Away from the boundary counts `near_pow2` names, a produced subnet's
/// usable range covers the request: at least `num_hosts` addresses lie
/// between its network and broadcast addresses.
pub proof fn lemma_subnet_covers_request(s: Subnet, num_hosts: int)
    requires
        num_hosts >= 1,
        subnet_wf(s, num_hosts),
        !near_pow2(num_hosts),
    ensures
        s.hosts >= num_hosts,
{
    let inc = spec_increment(s.mask_length as int);
    assert(inc == pow2((32 - s.mask_length as int) as nat));
    assert(num_hosts != pow2((32 - s.mask_length as int) as nat) && num_hosts + 1 != pow2(
        (32 - s.mask_length as int) as nat,
    ));
    assert(inc >= num_hosts + 2);
}

/// The seed address in front of allocation `n` of a chain that starts at
/// `seed` and serves the host counts `requests` in order, each allocation
/// seeded by the next-address of the one before it.
pub open spec fn chain_seed(seed: int, requests: Seq<int>, n: int) -> int
    decreases n,
{
    if n <= 0 {
        seed
    } else {
        spec_next_addr(chain_seed(seed, requests, n - 1), requests[n - 1])
    }
}

/// Every allocation of the chain succeeds.
pub open spec fn chain_ok(seed: int, requests: Seq<int>) -> bool {
    forall|n: int|
        0 <= n < requests.len() ==> can_allocate(
            #[trigger] chain_seed(seed, requests, n),
            requests[n],
        )
}

/// Seeds never move backwards along a chain: each allocation advances the
/// cursor by its block size.
proof fn lemma_chain_seed_monotone(seed: int, requests: Seq<int>, i: int, j: int)
    requires
        0 <= i <= j,
    ensures
        chain_seed(seed, requests, i) <= chain_seed(seed, requests, j),
    decreases j - i,
{
    if i < j {
        lemma_chain_seed_monotone(seed, requests, i, j - 1);
        lemma_pow2_pos((32 - spec_prefix_len(requests[j - 1])) as nat);
    }
}

/// Non-overlap and contiguity of a chain of successful allocations: each
/// subnet's broadcast address is immediately followed by the next subnet's
/// network address, and every later subnet lies strictly above every
/// earlier subnet's broadcast address.
pub proof fn lemma_chain_non_overlap(seed: int, requests: Seq<int>)
    requires
        chain_ok(seed, requests),
    ensures
        forall|i: int|
            0 <= i < requests.len() - 1 ==> spec_broadcast(
                chain_seed(seed, requests, i),
                requests[i],
            ) + 1 == #[trigger] chain_seed(seed, requests, i + 1),
        forall|i: int, j: int|
            0 <= i < j < requests.len() ==> spec_broadcast(
                #[trigger] chain_seed(seed, requests, i),
                requests[i],
            ) < #[trigger] chain_seed(seed, requests, j),
{
    assert forall|i: int, j: int| 0 <= i < j < requests.len() implies spec_broadcast(
        #[trigger] chain_seed(seed, requests, i),
        requests[i],
    ) < #[trigger] chain_seed(seed, requests, j) by {
        lemma_chain_seed_monotone(seed, requests, i + 1, j);
    }
}

impl Calculator {
    /// The number of leading prefix bits left over after reserving enough
    /// host bits for `num_hosts` addresses.
    fn calc_length(num_hosts: u32) -> (r: u32)
        requires
            num_hosts >= 1,
        ensures
            r as int == spec_prefix_len(num_hosts as int),
            r <= 31 ==> spec_increment(r as int) >= num_hosts,
    {
        let mut capacity: u64 = 1;
        let mut bits: u32 = 0;
        proof {
            assert(pow2(0) == 1 && pow2(32) == 0x1_0000_0000) by {
                lemma2_to64();
            }
        }
        while capacity < num_hosts as u64
            invariant
                num_hosts >= 1,
                bits <= 32,
                capacity >= 1,
                capacity == pow2(bits as nat),
                bits >= 1 ==> pow2((bits - 1) as nat) < num_hosts,
            decreases 2 * num_hosts as int - capacity,
        {
            proof {
                assert(bits < 32) by {
                    if bits >= 32 {
                        lemma_pow2_le(32, bits as nat);
                        assert(pow2(32) == 0x1_0000_0000) by {
                            lemma2_to64();
                        }
                    }
                }
                assert(capacity < 0x1_0000_0000);
                lemma_pow2_unfold((bits + 1) as nat);
            }
            capacity = capacity * 2;
            bits = bits + 1;
        }
        proof {
            lemma_clog2_unique(num_hosts as int, bits as nat);
        }
        32 - bits
    }

    /// The address block size for a prefix length: `2^(32 - mask_len)`,
    /// computed in 64 bits so that a zero prefix does not overflow.
    fn calc_increment(mask_len: u32) -> (r: u64)
        requires
            mask_len <= 32,
        ensures
            r as int == spec_increment(mask_len as int),
    {
        let mut increment: u64 = 1;
        let mut covered: u32 = mask_len;
        proof {
            assert(pow2(0) == 1) by {
                lemma2_to64();
            }
        }
        while covered < 32
            invariant
                mask_len <= covered <= 32,
                increment == pow2((covered - mask_len) as nat),
            decreases 32 - covered,
        {
            proof {
                lemma_pow2_le((covered - mask_len) as nat, 31);
                assert(pow2(31) == 0x8000_0000) by {
                    lemma2_to64();
                }
                lemma_pow2_unfold((covered + 1 - mask_len) as nat);
            }
            increment = increment * 2;
            covered = covered + 1;
        }
        increment
    }

    /// Computes one subnet from a seed address and a required host count,
    /// together with the first address after it, which seeds the next
    /// allocation in a chain.
    ///
    /// Succeeds exactly on the requests `can_allocate` admits: it rejects
    /// host counts below two as `InvalidHostCount` (the block must hold a
    /// network and a broadcast address besides its hosts), and requests
    /// whose block or following address would pass the top of the address
    /// space as `AddressSpaceExhausted`. A returned subnet satisfies every
    /// invariant in `subnet_wf`, sits at the seed address, and is followed
    /// immediately by the returned next address.
    pub fn generate_subnet(last_address: Ipv4Addr, num_hosts: u32) -> (r: Result<
        (Subnet, Ipv4Addr),
        AllocationError,
    >)
        ensures
            r is Ok <==> can_allocate(last_address@, num_hosts as int),
            r matches Ok((s, next)) ==> {
                &&& subnet_wf(s, num_hosts as int)
                &&& s.address == last_address
                &&& s.mask_length as int == spec_prefix_len(num_hosts as int)
                &&& next@ == spec_next_addr(last_address@, num_hosts as int)
            },
            r matches Err(e) ==> (e == AllocationError::InvalidHostCount <==> num_hosts < 2),
            r matches Err(e) ==> (e == AllocationError::AddressSpaceExhausted <==> num_hosts >= 2
                && spec_next_addr(last_address@, num_hosts as int) > 0xFFFF_FFFF),
    {
        if num_hosts < 2 {
            return Err(AllocationError::InvalidHostCount);
        }
        let network_address = last_address;
        let required_subnet_mask_length = Self::calc_length(num_hosts);
        let increment = Self::calc_increment(required_subnet_mask_length);
        let base = network_address.to_u32() as u64;
        if 0xFFFF_FFFF - base < increment {
            return Err(AllocationError::AddressSpaceExhausted);
        }
        proof {
            assert(required_subnet_mask_length >= 1) by {
                if required_subnet_mask_length == 0 {
                    assert(pow2(32) == 0x1_0000_0000) by {
                        lemma2_to64();
                    }
                }
            }
            lemma_clog2(num_hosts as int);
            lemma_pow2_unfold(clog2(num_hosts as int));
        }
        let subnet = Self::generate_subnet_from_address(
            network_address,
            required_subnet_mask_length,
        );
        let next_address = Ipv4Addr::from_u32(subnet.broadcast.to_u32() + 1);
        Ok((subnet, next_address))
    }

    /// Lays out the subnet block at a network address for a given prefix
    /// length: usable range, broadcast address and usable host count.
    fn generate_subnet_from_address(network_address: Ipv4Addr, subnet_mask_length: u32) -> (s:
        Subnet)
        requires
            1 <= subnet_mask_length <= 31,
            network_address@ + spec_increment(subnet_mask_length as int) - 1 <= 0xFFFF_FFFF,
        ensures
            s.address == network_address,
            s.mask_length == subnet_mask_length,
            s.start@ == network_address@ + 1,
            s.broadcast@ == network_address@ + spec_increment(subnet_mask_length as int) - 1,
            s.end@ == s.broadcast@ - 1,
            s.hosts as int == spec_increment(subnet_mask_length as int) - 2,
    {
        let address_increment = Self::calc_increment(subnet_mask_length);
        proof {
            lemma_pow2_le(1, (32 - subnet_mask_length) as nat);
            lemma_pow2_le((32 - subnet_mask_length) as nat, 31);
            assert(pow2(1) == 2 && pow2(31) == 0x8000_0000) by {
                lemma2_to64();
            }
        }
        let base_address = network_address.to_u32() as u64;
        let usable_range_start = Ipv4Addr::from_u32((base_address + 1) as u32);
        let broadcast_value = (base_address + address_increment - 1) as u32;
        let broadcast_address = Ipv4Addr::from_u32(broadcast_value);
        let usable_range_end = Ipv4Addr::from_u32(broadcast_value - 1);
        let hosts = (address_increment - 2) as u32;

        Subnet {
            address: network_address,
            mask_length: subnet_mask_length,
            start: usable_range_start,
            end: usable_range_end,
            broadcast: broadcast_address,
            hosts,
        }
    }
}

} // verus!
