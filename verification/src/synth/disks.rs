//! Where junction plates cut a centreline.
//!
//! A plate covers a disk. Plan positions are millimetres in a local plane, arcs
//! micrometres.
use vstd::prelude::*;
use crate::arith::{max, min};
use crate::plane::{cross, dot, is_root, isqrt, norm, root};
use crate::project::Place;
use crate::synth::surface::{cuts_fit, measured, trim_line, trimmed, ARC_LIMIT_UM};
use crate::synth::walkway::claims::Part;
use crate::synth::walkway::crossing::{in_plane, Spot, PLANE_MM};

verus! {

/// The disk a junction plate covers.
#[derive(Clone, Copy, Debug, PartialEq, Eq, Structural)]
pub struct Disk {
    pub centre: Spot,
    pub radius: u64,
}

pub open spec fn disk_fits(d: Disk) -> bool {
    in_plane(d.centre) && d.radius <= PLANE_MM
}

/// How far outside a disk a line through `(fx, fy)` passes, as the discriminant
/// of where it meets the circle: positive where it meets it twice.
pub open spec fn discriminant(fx: int, fy: int, dx: int, dy: int, r: int) -> int {
    dot(fx, fy, dx, dy) * dot(fx, fy, dx, dy) - norm(dx, dy) * (norm(fx, fy) - r * r)
}

/// The stretch of the piece from `p` to `q` inside a disk, in parts of the
/// piece's squared length.
pub open spec fn inside(p: Spot, q: Spot, d: Disk) -> Option<(int, int)> {
    let (fx, fy) = (p.x - d.centre.x, p.y - d.centre.y);
    let (dx, dy) = (q.x - p.x, q.y - p.y);
    let (len, near) = (norm(dx, dy), dot(fx, fy, dx, dy));
    let disc = discriminant(fx, fy, dx, dy, d.radius as int);
    let lo = max(-near - root(disc), 0);
    let hi = min(-near + root(disc), len);
    if len == 0 || disc <= 0 || hi <= lo {
        None
    } else {
        Some((lo, hi))
    }
}

/// The arcs a disk cuts out of a piece that runs from one arc to another.
pub open spec fn cut_of(p: Spot, q: Spot, s: i64, e: i64, d: Disk) -> Option<Part> {
    let len = norm(q.x - p.x, q.y - p.y);
    match inside(p, q, d) {
        Some((lo, hi)) => Some(
            Part { from: (s + lo * (e - s) / len) as i64, to: (s + hi * (e - s) / len) as i64, source: 0 },
        ),
        None => None,
    }
}

/// The cuts of one disk in the first `n` vertices' pieces.
pub open spec fn disk_cuts(pts: Seq<Spot>, arc: Seq<i64>, d: Disk, n: int) -> Seq<Part>
    decreases n,
{
    if n <= 1 {
        Seq::empty()
    } else {
        let rest = disk_cuts(pts, arc, d, n - 1);
        match cut_of(pts[n - 2], pts[n - 1], arc[n - 2], arc[n - 1], d) {
            Some(c) => rest.push(c),
            None => rest,
        }
    }
}

/// The cuts of the first `n` disks.
pub open spec fn all_cuts(pts: Seq<Spot>, arc: Seq<i64>, disks: Seq<Disk>, n: int) -> Seq<Part>
    decreases n,
{
    if n <= 0 {
        Seq::empty()
    } else {
        all_cuts(pts, arc, disks, n - 1) + disk_cuts(pts, arc, disks[n - 1], pts.len() as int)
    }
}

pub open spec fn line_fits(pts: Seq<Spot>, arc: Seq<i64>) -> bool {
    &&& pts.len() == arc.len()
    &&& forall|i: int| 0 <= i < pts.len() ==> in_plane(#[trigger] pts[i])
    &&& forall|i: int, j: int| 0 <= i < j < arc.len() ==> (#[trigger] arc[i]) <= (#[trigger] arc[j])
    &&& forall|i: int| 0 <= i < arc.len() ==> 0 <= #[trigger] arc[i] <= ARC_LIMIT_UM
}

proof fn lemma_product(a: int, b: int, m: int)
    requires
        -m <= a <= m,
        -m <= b <= m,
    ensures
        -(m * m) <= a * b <= m * m,
{
    assert(-(m * m) <= a * b <= m * m) by (nonlinear_arith)
        requires
            -m <= a <= m,
            -m <= b <= m,
    ;
}

fn products(ax: i64, ay: i64, bx: i64, by: i64) -> (out: i128)
    requires
        -0x400_0000 <= ax <= 0x400_0000,
        -0x400_0000 <= ay <= 0x400_0000,
        -0x400_0000 <= bx <= 0x400_0000,
        -0x400_0000 <= by <= 0x400_0000,
    ensures
        out == dot(ax as int, ay as int, bx as int, by as int),
        -0x20_0000_0000_0000 <= out <= 0x20_0000_0000_0000,
{
    proof {
        lemma_product(ax as int, bx as int, 0x400_0000);
        lemma_product(ay as int, by as int, 0x400_0000);
    }
    ax as i128 * bx as i128 + ay as i128 * by as i128
}

proof fn lemma_norm(x: int, y: int)
    ensures
        norm(x, y) >= 0,
        dot(x, y, x, y) == norm(x, y),
{
    assert(x * x >= 0 && y * y >= 0) by (nonlinear_arith);
}

proof fn lemma_share(part: int, len: int, room: int)
    requires
        0 <= part <= len,
        0 < len,
        0 <= room,
    ensures
        0 <= part * room / len <= room,
        0 <= part * room <= len * room,
{
    assert(0 <= part * room <= len * room) by (nonlinear_arith)
        requires
            0 <= part <= len,
            0 <= room,
    ;
    assert(0 <= part * room / len <= room) by (nonlinear_arith)
        requires
            0 <= part * room <= len * room,
            0 < len,
    ;
}

fn share(part: i128, len: i128, room: i64) -> (out: i64)
    requires
        0 <= part <= len,
        0 < len <= 0x20_0000_0000_0000,
        0 <= room <= ARC_LIMIT_UM,
    ensures
        out == part * room / (len as int),
        0 <= out <= room,
{
    proof {
        lemma_share(part as int, len as int, room as int);
        assert(len * room <= 0x20_0000_0000_0000 * 1_000_000_000_000_000) by (nonlinear_arith)
            requires
                0 < len <= 0x20_0000_0000_0000,
                0 <= room <= 1_000_000_000_000_000,
        ;
    }
    (part * room as i128 / len) as i64
}

fn find_cut(p: Spot, q: Spot, s: i64, e: i64, d: Disk) -> (out: Option<Part>)
    requires
        in_plane(p),
        in_plane(q),
        disk_fits(d),
        0 <= s <= e <= ARC_LIMIT_UM,
    ensures
        out == cut_of(p, q, s, e, d),
        out matches Some(c) ==> s <= c.from <= c.to <= e,
{
    let (fx, fy): (i64, i64) = (p.x - d.centre.x, p.y - d.centre.y);
    let (dx, dy): (i64, i64) = (q.x - p.x, q.y - p.y);
    let len: i128 = products(dx, dy, dx, dy);
    let near: i128 = products(fx, fy, dx, dy);
    let away: i128 = products(fx, fy, fx, fy);
    let r: i128 = d.radius as i128;
    proof {
        lemma_norm(dx as int, dy as int);
        lemma_norm(fx as int, fy as int);
        lemma_product(r as int, r as int, 0x200_0000);
    }
    if len == 0 {
        return None;
    }
    let over: i128 = away - r * r;
    proof {
        assert(r * r >= 0) by (nonlinear_arith)
            requires
                r >= 0,
        ;
        lemma_product(near as int, near as int, 0x20_0000_0000_0000);
        lemma_product(len as int, over as int, 0x20_0000_0000_0000);
    }
    let disc: i128 = near * near - len * over;
    if disc <= 0 {
        return None;
    }
    let sq: i128 = isqrt(disc as u128) as i128;
    let from: i128 = -near - sq;
    let to: i128 = -near + sq;
    let lo: i128 = if from < 0 {
        0
    } else {
        from
    };
    let hi: i128 = if to < len {
        to
    } else {
        len
    };
    if hi <= lo {
        return None;
    }
    let room: i64 = e - s;
    proof {
        lemma_share_grows(lo as int, hi as int, len as int, room as int);
    }
    Some(Part { from: s + share(lo, len, room), to: s + share(hi, len, room), source: 0 })
}

proof fn lemma_share_grows(lo: int, hi: int, len: int, room: int)
    requires
        0 <= lo <= hi <= len,
        0 < len,
        0 <= room,
    ensures
        lo * room / len <= hi * room / len,
{
    assert(lo * room <= hi * room) by (nonlinear_arith)
        requires
            lo <= hi,
            0 <= room,
    ;
    assert(lo * room / len <= hi * room / len) by (nonlinear_arith)
        requires
            lo * room <= hi * room,
            0 < len,
    ;
}

/// The arcs that disks cut out of a measured line, disk by disk.
pub fn cuts(pts: &[Spot], arc: &[i64], disks: &[Disk]) -> (out: Vec<Part>)
    requires
        line_fits(pts@, arc@),
        forall|i: int| 0 <= i < disks@.len() ==> disk_fits(#[trigger] disks@[i]),
    ensures
        out@ == all_cuts(pts@, arc@, disks@, disks@.len() as int),
        cuts_fit(out@),
{
    let mut out: Vec<Part> = Vec::new();
    let mut k: usize = 0;
    while k < disks.len()
        invariant
            k <= disks@.len(),
            line_fits(pts@, arc@),
            forall|i: int| 0 <= i < disks@.len() ==> disk_fits(#[trigger] disks@[i]),
            out@ == all_cuts(pts@, arc@, disks@, k as int),
            cuts_fit(out@),
        decreases disks@.len() - k,
    {
        let d: Disk = disks[k];
        assert(disk_fits(disks@[k as int]));
        let ghost before = out@;
        let mut i: usize = 1;
        while i < pts.len()
            invariant
                1 <= i,
                i <= pts@.len() || i == 1,
                line_fits(pts@, arc@),
                disk_fits(d),
                out@ == before + disk_cuts(pts@, arc@, d, i as int),
                cuts_fit(out@),
            decreases pts@.len() - i,
        {
            assert(in_plane(pts@[i - 1]) && in_plane(pts@[i as int]));
            assert(arc@[i - 1] <= arc@[i as int]);
            if let Some(c) = find_cut(pts[i - 1], pts[i], arc[i - 1], arc[i], d) {
                out.push(c);
            }
            i = i + 1;
            assert(out@ =~= before + disk_cuts(pts@, arc@, d, i as int));
        }
        proof {
            assert(disk_cuts(pts@, arc@, d, 1) =~= disk_cuts(pts@, arc@, d, 0));
        }
        assert(d == disks@[k as int]);
        assert(out@ =~= all_cuts(pts@, arc@, disks@, k as int) + disk_cuts(pts@, arc@, d, pts@.len() as int));
        k = k + 1;
    }
    out
}

/// The pieces of a centreline that junction plates leave.
pub fn trim_at_disks(pts: &[Place], spots: &[Spot], arc: &[i64], disks: &[Disk]) -> (out: Vec<Vec<Place>>)
    requires
        measured(pts@, arc@),
        line_fits(spots@, arc@),
        forall|i: int| 0 <= i < disks@.len() ==> disk_fits(#[trigger] disks@[i]),
    ensures
        out@.map_values(|l: Vec<Place>| l@) == trimmed(
            pts@,
            arc@,
            all_cuts(spots@, arc@, disks@, disks@.len() as int),
        ),
{
    trim_line(pts, arc, &cuts(spots, arc, disks))
}

/// What a disk cuts out of a piece lies in the disk: a point at `n` of `m`
/// parts along the piece, inside the cut, is no further from the centre than
/// the radius.
pub proof fn what_is_cut_lies_in_the_disk(p: Spot, q: Spot, d: Disk, n: int, m: int)
    requires
        0 < m,
        inside(p, q, d) is Some,
        m * (inside(p, q, d)->0).0 <= n * norm(q.x - p.x, q.y - p.y) <= m * (inside(p, q, d)->0).1,
    ensures
        norm(
            m * (p.x - d.centre.x) + n * (q.x - p.x),
            m * (p.y - d.centre.y) + n * (q.y - p.y),
        ) <= (m * m) * (d.radius * d.radius),
{
    let (fx, fy) = (p.x - d.centre.x, p.y - d.centre.y);
    let (dx, dy) = (q.x - p.x, q.y - p.y);
    let (l, near, c) = (norm(dx, dy), dot(fx, fy, dx, dy), cross(fx, fy, dx, dy));
    let r2 = d.radius * d.radius;
    let disc = discriminant(fx, fy, dx, dy, d.radius as int);
    let sq = root(disc);
    crate::plane::lemma_root_exists(disc);
    crate::plane::lemma_norm_along(fx, fy, dx, dy, m, n);
    crate::plane::lemma_squares_add_up(fx, fy, dx, dy);
    let here = norm(m * fx + n * dx, m * fy + n * dy);
    let s = m * near + n * l;
    crate::plane::lemma_scaled_norm(norm(fx, fy), near, c, l, m, n, here);
    let (lo, hi) = inside(p, q, d)->0;
    assert(m * (-near - sq) <= m * lo && m * hi <= m * (-near + sq)) by (nonlinear_arith)
        requires
            -near - sq <= lo,
            hi <= -near + sq,
            0 < m,
    ;
    assert(-(m * sq) <= s <= m * sq) by (nonlinear_arith)
        requires
            s == m * near + n * l,
            m * (-near - sq) <= n * l <= m * (-near + sq),
    ;
    assert(s * s <= (m * m) * (sq * sq)) by (nonlinear_arith)
        requires
            -(m * sq) <= s <= m * sq,
    ;
    assert((m * m) * (sq * sq) <= (m * m) * disc) by (nonlinear_arith)
        requires
            sq * sq <= disc,
    ;
    assert(disc + c * c == l * r2) by (nonlinear_arith)
        requires
            disc == near * near - l * (norm(fx, fy) - r2),
            norm(fx, fy) * l == near * near + c * c,
    ;
    assert((m * m) * disc + (m * m) * (c * c) == (m * m) * (l * r2)) by (nonlinear_arith)
        requires
            disc + c * c == l * r2,
    ;
    assert(here * l <= ((m * m) * r2) * l) by (nonlinear_arith)
        requires
            here * l == s * s + (m * m) * (c * c),
            s * s <= (m * m) * disc,
            (m * m) * disc + (m * m) * (c * c) == (m * m) * (l * r2),
    ;
    assert(here <= (m * m) * r2) by (nonlinear_arith)
        requires
            here * l <= ((m * m) * r2) * l,
            l > 0,
    ;
}

/// Nothing of a piece in the disk is left, but for what rounding leaves: a point
/// at `n` of `m` parts along the piece that is in the disk lies within a part of
/// the cut, and where nothing is cut, the disk holds no more than a part of it.
pub proof fn what_lies_in_the_disk_is_cut(p: Spot, q: Spot, d: Disk, n: int, m: int)
    requires
        0 < m,
        0 <= n <= m,
        p != q,
        norm(
            m * (p.x - d.centre.x) + n * (q.x - p.x),
            m * (p.y - d.centre.y) + n * (q.y - p.y),
        ) <= (m * m) * (d.radius * d.radius),
    ensures
        ({
            let len = norm(q.x - p.x, q.y - p.y);
            let near = dot(p.x - d.centre.x, p.y - d.centre.y, q.x - p.x, q.y - p.y);
            let disc = discriminant(p.x - d.centre.x, p.y - d.centre.y, q.x - p.x, q.y - p.y, d.radius as int);
            &&& disc >= 0
            &&& -m * (root(disc) + 1) < n * len + m * near < m * (root(disc) + 1)
            &&& inside(p, q, d) matches Some((lo, hi)) ==> m * (lo - 1) < n * len < m * (hi + 1)
        }),
{
    let (fx, fy) = (p.x - d.centre.x, p.y - d.centre.y);
    let (dx, dy) = (q.x - p.x, q.y - p.y);
    let (l, near, c) = (norm(dx, dy), dot(fx, fy, dx, dy), cross(fx, fy, dx, dy));
    let r2 = d.radius * d.radius;
    let disc = discriminant(fx, fy, dx, dy, d.radius as int);
    crate::plane::lemma_norm_along(fx, fy, dx, dy, m, n);
    crate::plane::lemma_squares_add_up(fx, fy, dx, dy);
    let here = norm(m * fx + n * dx, m * fy + n * dy);
    let s = m * near + n * l;
    crate::plane::lemma_scaled_norm(norm(fx, fy), near, c, l, m, n, here);
    assert(l > 0) by (nonlinear_arith)
        requires
            l == dx * dx + dy * dy,
            dx != 0 || dy != 0,
    ;
    assert(disc + c * c == l * r2) by (nonlinear_arith)
        requires
            disc == near * near - l * (norm(fx, fy) - r2),
            norm(fx, fy) * l == near * near + c * c,
    ;
    assert((m * m) * disc + (m * m) * (c * c) == (m * m) * (l * r2)) by (nonlinear_arith)
        requires
            disc + c * c == l * r2,
    ;
    assert(here * l <= ((m * m) * r2) * l) by (nonlinear_arith)
        requires
            here <= (m * m) * r2,
            l > 0,
    ;
    assert(s * s <= (m * m) * disc) by (nonlinear_arith)
        requires
            here * l == s * s + (m * m) * (c * c),
            here * l <= ((m * m) * r2) * l,
            (m * m) * disc + (m * m) * (c * c) == (m * m) * (l * r2),
    ;
    assert(disc >= 0) by (nonlinear_arith)
        requires
            s * s <= (m * m) * disc,
            m > 0,
    ;
    crate::plane::lemma_root_exists(disc);
    let sq = root(disc);
    assert((m * m) * disc < (m * (sq + 1)) * (m * (sq + 1))) by (nonlinear_arith)
        requires
            disc < (sq + 1) * (sq + 1),
            m > 0,
    ;
    let t = m * (sq + 1);
    assert(t > 0) by (nonlinear_arith)
        requires
            t == m * (sq + 1),
            m > 0,
            sq >= 0,
    ;
    assert(-t < s < t) by (nonlinear_arith)
        requires
            s * s < t * t,
            t > 0,
    ;
    assert(-m * (sq + 1) == -t) by (nonlinear_arith)
        requires
            t == m * (sq + 1),
    ;
    if let Some((lo, hi)) = inside(p, q, d) {
        assert(m * (-near - sq - 1) == -(m * near) - t) by (nonlinear_arith)
            requires
                t == m * (sq + 1),
        ;
        assert(m * (-near + sq + 1) == -(m * near) + t) by (nonlinear_arith)
            requires
                t == m * (sq + 1),
        ;
        assert(0 <= n * l <= m * l) by (nonlinear_arith)
            requires
                0 <= n <= m,
                l > 0,
        ;
        assert(m * (0 - 1) == -m && m * (l + 1) == m * l + m) by (nonlinear_arith);
    }
}

/// Every piece a disk reaches into is cut, by every disk, and nothing else is.
pub proof fn every_disk_cuts_every_piece_it_reaches(pts: Seq<Spot>, arc: Seq<i64>, disks: Seq<Disk>, n: int, k: int, i: int)
    requires
        0 <= k < n <= disks.len(),
        0 <= i < pts.len() - 1,
        cut_of(pts[i], pts[i + 1], arc[i], arc[i + 1], disks[k]) is Some,
    ensures
        all_cuts(pts, arc, disks, n).contains(cut_of(pts[i], pts[i + 1], arc[i], arc[i + 1], disks[k])->0),
    decreases n,
{
    let x = cut_of(pts[i], pts[i + 1], arc[i], arc[i + 1], disks[k])->0;
    let rest = all_cuts(pts, arc, disks, n - 1);
    let more = disk_cuts(pts, arc, disks[n - 1], pts.len() as int);
    let all = all_cuts(pts, arc, disks, n);
    if k < n - 1 {
        every_disk_cuts_every_piece_it_reaches(pts, arc, disks, n - 1, k, i);
        let at = choose|at: int| 0 <= at < rest.len() && rest[at] == x;
        assert(all[at] == x);
    } else {
        lemma_disk_cut(pts, arc, disks[k], pts.len() as int, i);
        let at = choose|at: int| 0 <= at < more.len() && more[at] == x;
        assert(all[rest.len() + at] == x);
    }
}

proof fn lemma_disk_cut(pts: Seq<Spot>, arc: Seq<i64>, d: Disk, n: int, i: int)
    requires
        0 <= i < n - 1,
        cut_of(pts[i], pts[i + 1], arc[i], arc[i + 1], d) is Some,
    ensures
        disk_cuts(pts, arc, d, n).contains(cut_of(pts[i], pts[i + 1], arc[i], arc[i + 1], d)->0),
    decreases n,
{
    let x = cut_of(pts[i], pts[i + 1], arc[i], arc[i + 1], d)->0;
    let rest = disk_cuts(pts, arc, d, n - 1);
    let all = disk_cuts(pts, arc, d, n);
    if i < n - 2 {
        lemma_disk_cut(pts, arc, d, n - 1, i);
        let at = choose|at: int| 0 <= at < rest.len() && rest[at] == x;
        assert(all[at] == x);
    } else {
        assert(all[rest.len() as int] == x);
    }
}

/// A cut's arcs stand along the piece in proportion to its share of it.
pub proof fn a_cut_stands_in_proportion(p: Spot, q: Spot, s: i64, e: i64, d: Disk)
    requires
        0 <= s <= e,
    ensures
        ({
            let len = norm(q.x - p.x, q.y - p.y);
            match (inside(p, q, d), cut_of(p, q, s, e, d)) {
                (Some((lo, hi)), Some(c)) => {
                    &&& 0 <= lo < hi <= len
                    &&& (c.from - s) * len <= lo * (e - s) < (c.from - s + 1) * len
                    &&& (c.to - s) * len <= hi * (e - s) < (c.to - s + 1) * len
                },
                (None, None) => true,
                _ => false,
            }
        }),
{
    if let Some((lo, hi)) = inside(p, q, d) {
        let len = norm(q.x - p.x, q.y - p.y);
        let room = e - s;
        lemma_norm(q.x - p.x, q.y - p.y);
        lemma_share(lo, len, room);
        lemma_share(hi, len, room);
        lemma_floor(lo * room, len);
        lemma_floor(hi * room, len);
    }
}

proof fn lemma_floor(a: int, b: int)
    requires
        b > 0,
    ensures
        (a / b) * b <= a < (a / b + 1) * b,
{
    assert((a / b) * b <= a < (a / b + 1) * b) by (nonlinear_arith)
        requires
            b > 0,
    ;
}

} // verus!
