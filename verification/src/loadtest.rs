//! The arithmetic of the load generator: its cheap pseudo-random numbers, the pool of channels
//! it spreads over, which channels each subscriber joins, how fast each publisher sends, and
//! the timestamp that each payload carries for measuring end-to-end latency.

use vstd::prelude::*;
use crate::broker::unix_nanos;
use crate::text::{decimal, decimal_string, lemma_split_after_decimal, lemma_parse_decimal, parse_u64_spec, split_once_spec};

verus! {

/// The current time in nanoseconds since the Unix epoch, cut to 64 bits.
pub fn now_nanos() -> u64 {
    #[verifier::truncate] (unix_nanos() as u64)
}

/// One step of the xorshift generator.
pub open spec fn xorshift(x: u64) -> u64 {
    let a = x ^ (x << 13u64);
    let b = a ^ (a >> 7u64);
    b ^ (b << 17u64)
}

/// Advances the generator state and returns the new value.
pub fn xs(state: &mut u64) -> (r: u64)
    ensures
        r == xorshift(*old(state)),
        *final(state) == r,
{
    let mut x = *state;
    x = x ^ (x << 13u64);
    x = x ^ (x >> 7u64);
    x = x ^ (x << 17u64);
    *state = x;
    x
}

/// A generator seeded with a non-zero state never reaches zero (it would then stay there).
pub proof fn lemma_xorshift_nonzero(x: u64)
    requires
        x != 0,
    ensures
        xorshift(x) != 0,
{
    let a = x ^ (x << 13u64);
    assert(a != 0) by (bit_vector)
        requires
            x != 0,
            a == x ^ (x << 13u64),
    ;
    let b = a ^ (a >> 7u64);
    assert(b != 0) by (bit_vector)
        requires
            a != 0,
            b == a ^ (a >> 7u64),
    ;
    let c = b ^ (b << 17u64);
    assert(c != 0) by (bit_vector)
        requires
            b != 0,
            c == b ^ (b << 17u64),
    ;
}

/// The channels a load test spreads over: `namespaces` namespaces of `per_ns` channels each.
#[derive(Debug)]
pub struct Pool {
    pub namespaces: usize,
    pub per_ns: usize,
}

/// The name of the channel at index `i` of a pool with `per_ns` channels per namespace:
/// `ns<i / per_ns>:c<i % per_ns>`.
pub open spec fn pool_name(i: nat, per_ns: nat) -> Seq<char> {
    "ns"@ + decimal(i / per_ns) + ":c"@ + decimal(i % per_ns)
}

impl Pool {
    /// The number of channels in the pool (at least one).
    pub open spec fn size(&self) -> nat {
        if self.namespaces * self.per_ns > 0 {
            (self.namespaces * self.per_ns) as nat
        } else {
            1
        }
    }

    /// The number of channels in the pool (at least one).
    pub fn total(&self) -> (n: usize)
        requires
            self.namespaces * self.per_ns <= usize::MAX,
        ensures
            n == self.size(),
    {
        let n = self.namespaces * self.per_ns;
        if n > 1 {
            n
        } else {
            1
        }
    }

    /// The channel at index `idx`, taken modulo the pool's size.
    pub fn name(&self, idx: usize) -> (s: String)
        requires
            self.namespaces * self.per_ns <= usize::MAX,
            self.per_ns > 0,
        ensures
            s@ == pool_name(idx as nat % self.size(), self.per_ns as nat),
    {
        let i = idx % self.total();
        let mut s = String::from_str("ns");
        let a = decimal_string((i / self.per_ns) as u128);
        s.append(a.as_str());
        s.append(":c");
        let b = decimal_string((i % self.per_ns) as u128);
        s.append(b.as_str());
        s
    }
}

/// Distinct indexes of a pool name distinct channels.
pub proof fn lemma_pool_names_distinct(i: nat, j: nat, per_ns: nat)
    requires
        per_ns > 0,
        i != j,
        i <= u64::MAX,
        j <= u64::MAX,
    ensures
        pool_name(i, per_ns) != pool_name(j, per_ns),
{
    let (a, b) = (i / per_ns, i % per_ns);
    let (c, d) = (j / per_ns, j % per_ns);
    assert(i == a * per_ns + b && j == c * per_ns + d) by (nonlinear_arith)
        requires
            per_ns > 0,
            a == i / per_ns,
            b == i % per_ns,
            c == j / per_ns,
            d == j % per_ns,
    ;
    assert(a <= i && c <= j && b < per_ns && d < per_ns) by (nonlinear_arith)
        requires
            per_ns > 0,
            a == i / per_ns,
            b == i % per_ns,
            c == j / per_ns,
            d == j % per_ns,
    ;
    if pool_name(i, per_ns) == pool_name(j, per_ns) {
        assert("ns"@ =~= seq!['n', 's']) by {
            reveal_strlit("ns");
        }
        assert(":c"@ =~= seq![':', 'c']) by {
            reveal_strlit(":c");
        }
        assert(':' as int == 58);
        let x = pool_name(i, per_ns).skip(2);
        let y = pool_name(j, per_ns).skip(2);
        assert(x =~= decimal(a) + seq![':'] + (seq!['c'] + decimal(b)));
        assert(y =~= decimal(c) + seq![':'] + (seq!['c'] + decimal(d)));
        lemma_split_after_decimal(a, ':', seq!['c'] + decimal(b));
        lemma_split_after_decimal(c, ':', seq!['c'] + decimal(d));
        assert(decimal(a) == decimal(c));
        assert((seq!['c'] + decimal(b)).skip(1) =~= decimal(b));
        assert((seq!['c'] + decimal(d)).skip(1) =~= decimal(d));
        assert(decimal(b) == decimal(d));
        lemma_parse_decimal(a as u64);
        lemma_parse_decimal(c as u64);
        lemma_parse_decimal(b as u64);
        lemma_parse_decimal(d as u64);
        assert(a == c);
        assert(b == d);
    }
}

/// The seed of subscriber `i`'s generator.
pub open spec fn subscriber_seed_spec(i: usize) -> u64 {
    vstd::wrapping::u64_specs::wrapping_add(
        vstd::wrapping::u64_specs::wrapping_mul(i as u64, 2654435761u64),
        1,
    ) | 1u64
}

/// The state of a generator seeded with `s` after `n` steps.
pub open spec fn xs_iter(s: u64, n: nat) -> u64
    decreases n,
{
    if n == 0 {
        s
    } else {
        xorshift(xs_iter(s, (n - 1) as nat))
    }
}

/// The seed of subscriber `i`'s generator (odd, so never zero).
pub fn subscriber_seed(i: usize) -> (s: u64)
    ensures
        s == subscriber_seed_spec(i),
        s != 0,
{
    let w = (i as u64).wrapping_mul(2654435761u64).wrapping_add(1);
    let s = w | 1u64;
    assert(s != 0) by (bit_vector)
        requires
            s == w | 1u64,
    ;
    s
}

/// The seed of publisher `j`'s generator.
pub fn publisher_seed(j: usize) -> (s: u64)
    ensures
        s == vstd::wrapping::u64_specs::wrapping_add(
            vstd::wrapping::u64_specs::wrapping_mul(j as u64, 0x9E37_79B9_7F4A_7C15u64),
            12_345,
        ),
{
    (j as u64).wrapping_mul(0x9E37_79B9_7F4A_7C15u64).wrapping_add(12_345)
}

/// Whether `name` is the name of a channel of `pool`.
pub open spec fn in_pool(pool: &Pool, name: Seq<char>) -> bool {
    exists|idx: nat| idx < pool.size() && name == pool_name(idx, pool.per_ns as nat)
}

/// The channels subscriber `i` joins: from its seed, a count between `min_channels` and
/// `max_channels`, then that many pool channels, each drawn from the generator.
pub fn subscriber_channels(pool: &Pool, i: usize, min_channels: usize, max_channels: usize) -> (chans: Vec<String>)
    requires
        pool.namespaces * pool.per_ns <= usize::MAX,
        pool.per_ns > 0,
        min_channels <= max_channels,
        max_channels < usize::MAX,
    ensures
        chans@.len() == min_channels + (#[verifier::truncate] (xs_iter(subscriber_seed_spec(i), 1) as usize)) as nat
            % (max_channels - min_channels + 1) as nat,
        min_channels <= chans@.len() <= max_channels,
        forall|k: int| 0 <= k < chans@.len() ==> #[trigger] chans@[k]@ == pool_name(
            (#[verifier::truncate] (xs_iter(subscriber_seed_spec(i), (k + 2) as nat) as usize)) as nat % pool.size(),
            pool.per_ns as nat,
        ),
        forall|k: int| 0 <= k < chans@.len() ==> in_pool(pool, #[trigger] chans@[k]@),
{
    let span = max_channels - min_channels + 1;
    let mut s = subscriber_seed(i);
    let ghost seed = s;
    let first = xs(&mut s);
    assert(xs_iter(seed, 0) == seed);
    assert(xs_iter(seed, 1) == first);
    let k = min_channels + (#[verifier::truncate] (first as usize)) % span;
    let mut chans: Vec<String> = Vec::new();
    let mut j: usize = 0;
    while j < k
        invariant
            pool.namespaces * pool.per_ns <= usize::MAX,
            pool.per_ns > 0,
            j <= k,
            chans@.len() == j,
            k <= max_channels,
            s == xs_iter(seed, (j + 1) as nat),
            forall|m: int| 0 <= m < chans@.len() ==> #[trigger] chans@[m]@ == pool_name(
                (#[verifier::truncate] (xs_iter(seed, (m + 2) as nat) as usize)) as nat % pool.size(),
                pool.per_ns as nat,
            ),
            forall|m: int| 0 <= m < chans@.len() ==> in_pool(pool, #[trigger] chans@[m]@),
        decreases k - j,
    {
        let r = xs(&mut s);
        let name = pool.name(#[verifier::truncate] (r as usize));
        proof {
            let idx = (#[verifier::truncate] (r as usize)) as nat % pool.size();
            assert(idx < pool.size());
            assert(in_pool(pool, name@));
            assert(xs_iter(seed, (j + 2) as nat) == xorshift(xs_iter(seed, (j + 1) as nat)));
        }
        chans.push(name);
        j = j + 1;
    }
    chans
}

/// How many publications a publisher sends per 10 ms tick: a hundredth of its rate (at least
/// one), or without a rate as many as it can.
pub fn per_tick(rate_per_pub: u64) -> (n: u64)
    ensures
        n == if rate_per_pub > 0 {
            if rate_per_pub / 100 > 1 { rate_per_pub / 100 } else { 1 }
        } else {
            u64::MAX
        },
{
    if rate_per_pub > 0 {
        let t = rate_per_pub / 100;
        if t > 1 {
            t
        } else {
            1
        }
    } else {
        u64::MAX
    }
}

/// Each publisher's share of a total rate (at least one), or 0 without a rate.
pub fn rate_per_publisher(rate: u64, publishers: usize) -> (r: u64)
    requires
        rate > 0 ==> publishers > 0,
    ensures
        r == if rate > 0 {
            if rate / (publishers as u64) > 1 { rate / (publishers as u64) } else { 1 }
        } else {
            0
        },
{
    if rate > 0 {
        let share = rate / (publishers as u64);
        if share > 1 {
            share
        } else {
            1
        }
    } else {
        0
    }
}

/// Byte `k` (little-endian) of `v`.
pub open spec fn le_byte(v: u64, k: nat) -> u8 {
    ((v >> (8 * k)) & 0xffu64) as u8
}

/// A payload of `size` bytes (at least 8) whose first 8 bytes hold `now` in little-endian
/// order, the rest zero.
pub fn stamped_payload(size: usize, now: u64) -> (data: Vec<u8>)
    ensures
        data@.len() == if size > 8 { size } else { 8 },
        forall|k: int| 0 <= k < 8 ==> #[trigger] data@[k] == le_byte(now, k as nat),
        forall|k: int| 8 <= k < data@.len() ==> #[trigger] data@[k] == 0,
{
    let n = if size > 8 {
        size
    } else {
        8
    };
    let mut data: Vec<u8> = Vec::new();
    let mut k: usize = 0;
    while k < n
        invariant
            n >= 8,
            k <= n,
            data@.len() == k,
            forall|m: int| 0 <= m < k && m < 8 ==> #[trigger] data@[m] == le_byte(now, m as nat),
            forall|m: int| 8 <= m < k ==> #[trigger] data@[m] == 0,
        decreases n - k,
    {
        if k < 8 {
            let b = ((now >> (8 * k as u64)) & 0xffu64) as u8;
            data.push(b);
        } else {
            data.push(0u8);
        }
        k = k + 1;
    }
    data
}

/// The value of 8 little-endian bytes.
pub open spec fn le_value(b: Seq<u8>) -> u64 {
    (b[0] as u64) | ((b[1] as u64) << 8u64) | ((b[2] as u64) << 16u64) | ((b[3] as u64) << 24u64)
        | ((b[4] as u64) << 32u64) | ((b[5] as u64) << 40u64) | ((b[6] as u64) << 48u64) | ((b[7] as u64) << 56u64)
}

/// The timestamp a payload carries in its first 8 bytes (none for a shorter payload).
pub fn payload_stamp(data: &Vec<u8>) -> (t: Option<u64>)
    ensures
        data@.len() >= 8 ==> t == Some(le_value(data@)),
        data@.len() < 8 ==> t is None,
{
    if data.len() < 8 {
        return None;
    }
    let v = (data[0] as u64) | ((data[1] as u64) << 8u64) | ((data[2] as u64) << 16u64) | ((data[3] as u64) << 24u64)
        | ((data[4] as u64) << 32u64) | ((data[5] as u64) << 40u64) | ((data[6] as u64) << 48u64) | ((data[7] as u64) << 56u64);
    Some(v)
}

/// A payload stamped with `now` carries `now`.
pub proof fn lemma_stamp_round_trip(now: u64, data: Seq<u8>)
    requires
        data.len() >= 8,
        forall|k: int| 0 <= k < 8 ==> #[trigger] data[k] == le_byte(now, k as nat),
    ensures
        le_value(data) == now,
{
    let (b0, b1, b2, b3) = (data[0], data[1], data[2], data[3]);
    let (b4, b5, b6, b7) = (data[4], data[5], data[6], data[7]);
    assert(b0 == le_byte(now, 0) && b1 == le_byte(now, 1) && b2 == le_byte(now, 2) && b3 == le_byte(now, 3));
    assert(b4 == le_byte(now, 4) && b5 == le_byte(now, 5) && b6 == le_byte(now, 6) && b7 == le_byte(now, 7));
    assert(((b0 as u64) | ((b1 as u64) << 8u64) | ((b2 as u64) << 16u64) | ((b3 as u64) << 24u64)
        | ((b4 as u64) << 32u64) | ((b5 as u64) << 40u64) | ((b6 as u64) << 48u64) | ((b7 as u64) << 56u64)) == now) by (bit_vector)
        requires
            b0 == ((now >> 0u64) & 0xffu64) as u8,
            b1 == ((now >> 8u64) & 0xffu64) as u8,
            b2 == ((now >> 16u64) & 0xffu64) as u8,
            b3 == ((now >> 24u64) & 0xffu64) as u8,
            b4 == ((now >> 32u64) & 0xffu64) as u8,
            b5 == ((now >> 40u64) & 0xffu64) as u8,
            b6 == ((now >> 48u64) & 0xffu64) as u8,
            b7 == ((now >> 56u64) & 0xffu64) as u8,
    ;
}

/// The largest latency a histogram records, in microseconds.
pub const MAX_LATENCY_US: u64 = 60_000_000;

/// The latency in microseconds of a payload stamped at `stamp` and received at `now`, capped
/// at a minute (0 if the stamp is in the future).
pub fn latency_us(now: u64, stamp: u64) -> (l: u64)
    ensures
        l == if now > stamp {
            if (now - stamp) / 1000 < MAX_LATENCY_US { ((now - stamp) / 1000) as u64 } else { MAX_LATENCY_US }
        } else {
            0
        },
{
    let d = now.saturating_sub(stamp) / 1000;
    if d < MAX_LATENCY_US {
        d
    } else {
        MAX_LATENCY_US
    }
}

} // verus!
