use vstd::prelude::*;

verus! {

/// A map node: a stable non-negative identifier and a coordinate in
/// fixed-point degrees (degrees times ten million, the native resolution of
/// the raw map data).
#[derive(Clone, Copy, Debug, PartialEq, Eq, Structural)]
pub struct GeoNode {
    pub id: i64,
    pub lat_e7: i64,
    pub lon_e7: i64,
}

pub open spec fn valid_lat_e7(lat: int) -> bool {
    -900_000_000 <= lat <= 900_000_000
}

pub open spec fn valid_lon_e7(lon: int) -> bool {
    -1_800_000_000 <= lon <= 1_800_000_000
}

impl GeoNode {
    /// A real node: non-negative identifier, coordinate on the globe.
    pub open spec fn wf(self) -> bool {
        &&& self.id >= 0
        &&& valid_lat_e7(self.lat_e7 as int)
        &&& valid_lon_e7(self.lon_e7 as int)
    }
}

pub open spec fn iabs(x: int) -> int {
    if x < 0 {
        -x
    } else {
        x
    }
}

/// r is the integer square root of n: r * r <= n < (r + 1) * (r + 1).
pub open spec fn isqrt_post(n: int, r: int) -> bool {
    let r1 = r + 1;
    0 <= r && r * r <= n && n < r1 * r1
}

/// The non-negative integer square root: the unique r with
/// r * r <= n < (r + 1) * (r + 1).
pub open spec fn spec_isqrt(n: int) -> int {
    choose|r: int| isqrt_post(n, r)
}

pub proof fn lemma_isqrt_exact(n: int, r: int)
    requires
        isqrt_post(n, r),
    ensures
        spec_isqrt(n) == r,
{
    assert(exists|q: int| isqrt_post(n, q)) by {
        assert(isqrt_post(n, r));
    }
    let s = spec_isqrt(n);
    assert(isqrt_post(n, s));
    if s < r {
        assert((s + 1) * (s + 1) <= r * r) by (nonlinear_arith)
            requires
                0 <= s,
                s + 1 <= r,
        ;
    }
    if r < s {
        assert((r + 1) * (r + 1) <= s * s) by (nonlinear_arith)
            requires
                0 <= r,
                r + 1 <= s,
        ;
    }
}

/// Binary-search integer square root.
pub fn isqrt_u128(n: u128) -> (r: u128)
    ensures
        r as int == spec_isqrt(n as int),
        isqrt_post(n as int, r as int),
{
    let mut lo: u128 = 0;
    let mut hi: u128 = 18_446_744_073_709_551_616;
    proof {
        assert((hi as int) * (hi as int) > n as int) by (nonlinear_arith)
            requires
                hi as int == 18_446_744_073_709_551_616int,
                n as int <= u128::MAX as int,
        ;
    }
    while lo + 1 < hi
        invariant
            0 <= lo < hi <= 18_446_744_073_709_551_616,
            (lo as int) * (lo as int) <= n as int,
            (n as int) < (hi as int) * (hi as int),
        decreases hi - lo,
    {
        let mid: u128 = lo + (hi - lo) / 2;
        proof {
            assert((mid as int) * (mid as int) <= u128::MAX as int) by (nonlinear_arith)
                requires
                    0 <= mid as int <= 18_446_744_073_709_551_615int,
            ;
        }
        if mid * mid <= n {
            lo = mid;
        } else {
            hi = mid;
        }
    }
    proof {
        assert((hi as int) * (hi as int) <= (lo as int + 1) * (lo as int + 1)) by (nonlinear_arith)
            requires
                0 <= hi as int <= lo as int + 1,
        ;
        lemma_isqrt_exact(n as int, lo as int);
    }
    lo
}

/// The cosine of a latitude, scaled by one million, from the latitude's
/// magnitude in fixed-point degrees. A two-term series in the angle's
/// radian measure, clamped to [0, 1000000].
pub open spec fn spec_cos_scaled(m: int) -> int {
    let r = m * 1745329 / 1000000;
    let q = r * r;
    let t2 = q / 2_000_000_000_000;
    let q2 = q / 1_000_000_000;
    let t4 = q2 * q2 / 24_000_000_000_000;
    let c = 1_000_000 + t4 - t2;
    if c < 0 {
        0
    } else if c > 1_000_000 {
        1_000_000
    } else {
        c
    }
}

pub fn cos_scaled(m: u64) -> (r: u64)
    requires
        m <= 900_000_000,
    ensures
        r as int == spec_cos_scaled(m as int),
        r <= 1_000_000,
{
    let mw: u128 = m as u128;
    let rr: u128 = mw * 1745329 / 1000000;
    proof {
        assert(rr as int <= 1_570_796_100) by (nonlinear_arith)
            requires
                rr as int == (mw as int) * 1745329 / 1000000,
                0 <= mw as int <= 900_000_000,
        ;
        assert((rr as int) * (rr as int) <= 2_467_400_409_129_610_000int) by (nonlinear_arith)
            requires
                0 <= rr as int <= 1_570_796_100,
        ;
    }
    let q: u128 = rr * rr;
    let t2: u128 = q / 2_000_000_000_000;
    let q2: u128 = q / 1_000_000_000;
    proof {
        assert(q2 as int <= 2_467_400_410) by (nonlinear_arith)
            requires
                q2 as int == (q as int) / 1_000_000_000,
                0 <= q as int <= 2_467_400_409_129_610_000int,
        ;
        assert((q2 as int) * (q2 as int) <= 6_100_000_000_000_000_000int)
            by (nonlinear_arith)
            requires
                0 <= q2 as int <= 2_467_400_410,
        ;
        assert(t2 as int <= 2_000_000_000) by (nonlinear_arith)
            requires
                t2 as int == (q as int) / 2_000_000_000_000,
                0 <= q as int <= 2_467_400_409_129_610_000int,
        ;
    }
    let t4: u128 = q2 * q2 / 24_000_000_000_000;
    proof {
        assert(t4 as int <= 300_000_000) by (nonlinear_arith)
            requires
                t4 as int == (q2 as int) * (q2 as int) / 24_000_000_000_000,
                0 <= (q2 as int) * (q2 as int) <= 6_100_000_000_000_000_000int,
        ;
    }
    let c: i128 = 1_000_000 + (t4 as i128) - (t2 as i128);
    if c < 0 {
        0
    } else if c > 1_000_000 {
        1_000_000
    } else {
        c as u64
    }
}

/// The great-circle distance in millimeters between two coordinates given in
/// fixed-point degrees: meridian and parallel displacements are scaled to
/// millimeters (the parallel one by the cosine of the mean latitude) and
/// combined by the integer square root.
pub open spec fn spec_distance_mm(alat: int, alon: int, blat: int, blon: int) -> int {
    let dlat = iabs(alat - blat);
    let dlon = iabs(alon - blon);
    let msum = iabs(alat + blat) / 2;
    let c = spec_cos_scaled(msum);
    let ns = dlat * 11119493 / 1000000;
    let ew = dlon * 11119493 * c / 1_000_000_000_000;
    spec_isqrt(ns * ns + ew * ew)
}

/// Distance in millimeters between two nodes' coordinates.
pub fn distance_mm(a: &GeoNode, b: &GeoNode) -> (r: u64)
    requires
        a.wf(),
        b.wf(),
    ensures
        r as int == spec_distance_mm(
            a.lat_e7 as int,
            a.lon_e7 as int,
            b.lat_e7 as int,
            b.lon_e7 as int,
        ),
{
    let dlat_i: i64 = if a.lat_e7 >= b.lat_e7 {
        a.lat_e7 - b.lat_e7
    } else {
        b.lat_e7 - a.lat_e7
    };
    let dlon_i: i64 = if a.lon_e7 >= b.lon_e7 {
        a.lon_e7 - b.lon_e7
    } else {
        b.lon_e7 - a.lon_e7
    };
    let sum_i: i64 = a.lat_e7 + b.lat_e7;
    let msum_i: i64 = if sum_i >= 0 {
        sum_i / 2
    } else {
        (-sum_i) / 2
    };
    assert(msum_i as int == iabs(a.lat_e7 + b.lat_e7) / 2);
    let c: u64 = cos_scaled(msum_i as u64);
    let dlat: u128 = dlat_i as u128;
    let dlon: u128 = dlon_i as u128;
    let ns: u128 = dlat * 11119493 / 1000000;
    proof {
        assert((dlat as int) * 11119493 <= 40_030_174_800_000_000int) by (nonlinear_arith)
            requires
                0 <= dlat as int <= 3_600_000_000,
        ;
        assert(ns as int <= 40_030_174_800) by (nonlinear_arith)
            requires
                ns as int == (dlat as int) * 11119493 / 1000000,
                0 <= (dlat as int) * 11119493 <= 40_030_174_800_000_000int,
        ;
    }
    proof {
        assert((dlon as int) * 11119493 <= 40_030_174_800_000_000int) by (nonlinear_arith)
            requires
                0 <= dlon as int <= 3_600_000_000,
        ;
        assert((dlon as int) * 11119493 * (c as int) <= 40_030_174_800_000_000_000_000int)
            by (nonlinear_arith)
            requires
                0 <= (dlon as int) * 11119493 <= 40_030_174_800_000_000int,
                0 <= c as int <= 1_000_000,
        ;
    }
    let ew: u128 = dlon * 11119493 * (c as u128) / 1_000_000_000_000;
    proof {
        assert(ew as int <= 40_030_174_800) by (nonlinear_arith)
            requires
                ew as int == (dlon as int) * 11119493 * (c as int) / 1_000_000_000_000,
                0 <= (dlon as int) * 11119493 * (c as int) <= 40_030_174_800_000_000_000_000int,
        ;
        assert((ns as int) * (ns as int) <= 1_610_000_000_000_000_000_000int) by (nonlinear_arith)
            requires
                0 <= ns as int <= 40_030_174_800,
        ;
        assert((ew as int) * (ew as int) <= 1_610_000_000_000_000_000_000int) by (nonlinear_arith)
            requires
                0 <= ew as int <= 40_030_174_800,
        ;
    }
    let d: u128 = isqrt_u128(ns * ns + ew * ew);
    proof {
        assert(d as int <= u64::MAX as int) by (nonlinear_arith)
            requires
                (d as int) * (d as int) <= 3_220_000_000_000_000_000_000int,
                0 <= d as int,
        ;
    }
    d as u64
}

/// The distance from a coordinate to itself is zero.
pub proof fn lemma_distance_zero(lat: int, lon: int)
    ensures
        spec_distance_mm(lat, lon, lat, lon) == 0,
{
    let c = spec_cos_scaled(iabs(lat + lat) / 2);
    assert(iabs(lat - lat) == 0);
    assert(iabs(lon - lon) == 0);
    assert(0 * 11119493 * c == 0) by (nonlinear_arith);
    assert(0 * 11119493 / 1000000 == 0);
    assert(0 * c / 1_000_000_000_000 == 0) by (nonlinear_arith);
    lemma_isqrt_exact(0, 0);
}

/// Distance is symmetric in its two coordinates.
pub proof fn lemma_distance_symmetric(alat: int, alon: int, blat: int, blon: int)
    ensures
        spec_distance_mm(alat, alon, blat, blon) == spec_distance_mm(blat, blon, alat, alon),
{
}

} // verus!
