//! Bit-plane coding of a coefficient buffer.
//!
//! The magnitudes of the coefficients are coded bit plane by bit plane, the
//! most significant first. In the plain order each bit plane gives two
//! packets, one of its significance and sign bits and one of its refinement
//! bits, and every packet has a context model and an entropy coder of its own,
//! so that a stream which ends early still decodes to an image of lower
//! quality. In the priority order the bit planes of the subbands are
//! interleaved by their weight in the image, and the context model lasts for
//! the whole segment.

use crate::arith::{arith_encoded, ArithDecoder, ArithEncoder};
use crate::entropy::{encoded, BitSink, BitSource, EntropyKind};
use crate::error::{fails_with, Fault, IcerError, Result};
use crate::priority::{can_step, first_column, first_row, is_unit, lattice_count, packet_schedule, packet_views, schedule, scheduled_units_ok, subband_lattice, lemma_schedule_units, ScheduleParams, Scheduled, Subband, SubbandBitPlane};
use crate::scan::{categories_advanced, everything, fresh_hearing, fresh_scan, heard, magnitude, magnitude_of, plain, reconstructed, silent, told, window_of, window_patch, with_fresh_model, Channel, Gathered, Grid, Hearing, Patch, Scan, ScanPass, ScanState, Selection, Telling};
use crate::text::{with_number, with_numbers};
use vstd::prelude::*;
use vstd::arithmetic::power2::pow2;

pub use crate::scan::{highest_set_bit, neighbour_significance_pattern, ScanFilter};

verus! {

/// Rows that belong to one stripe of a scan. The stripes follow one another
/// from the top, and each is scanned row by row, so that the coefficients come
/// in raster order.
pub const STRIPE_HEIGHT: usize = 4;

/// A coefficient buffer to encode.
#[derive(Debug)]
pub struct BitPlaneInput<'a> {
    /// The coefficients in raster order.
    pub coeffs: &'a [i32],
    /// Columns.
    pub width: usize,
    /// Rows.
    pub height: usize,
    /// Number of bit planes.
    pub q: u8,
    /// Decomposition levels; with 0 subbands are not told apart.
    pub levels: u8,
}

impl<'a> BitPlaneInput<'a> {
    /// The buffer has the size it claims and at most 31 bit planes.
    pub open spec fn valid(self) -> bool {
        self.coeffs@.len() == self.width * self.height && 1 <= self.q <= 31
    }

    /// Shape of the buffer.
    pub open spec fn grid(self) -> Grid {
        Grid { width: self.width, height: self.height, levels: self.levels }
    }

    fn validate(&self) -> (r: Result<()>)
        requires
            self.width * self.height <= usize::MAX,
        ensures
            r is Ok <==> self.valid(),
            fails_with(r, Fault::InvalidData) <==> !self.valid(),
    {
        if self.coeffs.len() != self.width * self.height {
            return Err(
                IcerError::InvalidData(
                    with_numbers(
                        "bit-plane input: ",
                        self.coeffs.len() as u64,
                        " coeffs but width*height = ",
                        (self.width * self.height) as u64,
                        "",
                    ),
                ),
            );
        }
        check_bit_planes(self.q)
    }
}

fn check_bit_planes(q: u8) -> (r: Result<()>)
    ensures
        r is Ok <==> 1 <= q <= 31,
        fails_with(r, Fault::InvalidData) <==> !(1 <= q <= 31),
{
    if q == 0 || q > 31 {
        return Err(
            IcerError::InvalidData(with_number("bit-plane count ", q as u64, " outside (0,31]")),
        );
    }
    Ok(())
}

/// One packet: the entropy-coded bits of a pass over a bit plane.
#[derive(Debug, Clone)]
pub struct EncodedPacket {
    /// The bit plane, with 0 the most significant. In the priority order the
    /// index of the priority group.
    pub bit_plane: u8,
    /// Significance and sign bits, and not refinement bits.
    pub is_significance: bool,
    /// The entropy-coded bits.
    pub body: Vec<u8>,
}

/// A packet as a value.
pub struct Coded {
    /// The bit plane or the priority group.
    pub bit_plane: u8,
    /// Significance and sign bits, and not refinement bits.
    pub is_significance: bool,
    /// The entropy-coded bits.
    pub body: Seq<u8>,
}

impl View for EncodedPacket {
    type V = Coded;

    open spec fn view(&self) -> Coded {
        Coded {
            bit_plane: self.bit_plane,
            is_significance: self.is_significance,
            body: self.body@,
        }
    }
}

/// The packets that a slice holds.
pub open spec fn coded_views(v: Seq<EncodedPacket>) -> Seq<Coded> {
    Seq::new(v.len(), |i: int| v[i]@)
}

// ---------------------------------------------------------------------------
// The plain order
// ---------------------------------------------------------------------------

/// The encoding side between two bit planes.
pub struct Coding {
    /// What both sides know.
    pub scan: Scan,
    /// The packets so far.
    pub packets: Seq<Coded>,
}

/// A pass of a bit plane with a fresh model and a fresh coder.
pub open spec fn pass_told(
    g: Grid,
    coeffs: Seq<i32>,
    f: Selection,
    pass: ScanPass,
    bp: u32,
    scan: Scan,
) -> Telling {
    let p = window_patch(g, f);
    told(
        g,
        coeffs,
        f,
        pass,
        bp,
        p,
        Telling { scan: with_fresh_model(scan), log: Seq::empty() },
        p.size(),
    )
}

/// The two packets of one more bit plane.
pub open spec fn plane_coded(
    g: Grid,
    coeffs: Seq<i32>,
    f: Selection,
    kind: EntropyKind,
    q: u8,
    before: Coding,
    index: int,
) -> Coding {
    let bp = (q - 1 - index) as u32;
    let sig = pass_told(g, coeffs, f, ScanPass::Significance, bp, before.scan);
    let refine = pass_told(g, coeffs, f, ScanPass::Refinement, bp, sig.scan);
    Coding {
        scan: refine.scan,
        packets: before.packets.push(
            Coded {
                bit_plane: index as u8,
                is_significance: true,
                body: encoded(kind, sig.log),
            },
        ).push(
            Coded {
                bit_plane: index as u8,
                is_significance: false,
                body: encoded(kind, refine.log),
            },
        ),
    }
}

/// The encoding side after the first `p` bit planes.
pub open spec fn planes_coded(
    g: Grid,
    coeffs: Seq<i32>,
    f: Selection,
    kind: EntropyKind,
    q: u8,
    p: int,
) -> Coding
    decreases p,
{
    if p <= 0 {
        Coding { scan: fresh_scan(g.area()), packets: Seq::empty() }
    } else {
        plane_coded(g, coeffs, f, kind, q, planes_coded(g, coeffs, f, kind, q, p - 1), p - 1)
    }
}

/// The packets of a buffer.
pub open spec fn bitplanes_coded(
    g: Grid,
    coeffs: Seq<i32>,
    f: Selection,
    kind: EntropyKind,
    q: u8,
) -> Seq<Coded> {
    planes_coded(g, coeffs, f, kind, q, q as int).packets
}

/// Encode a buffer with the arithmetic coder.
pub fn encode_bitplanes(input: &BitPlaneInput) -> (r: Result<Vec<EncodedPacket>>)
    requires
        input.grid().ok(),
    ensures
        r is Ok <==> input.valid(),
        fails_with(r, Fault::InvalidData) <==> !input.valid(),
        r is Ok ==> coded_views(r->Ok_0@) == bitplanes_coded(
            input.grid(),
            input.coeffs@,
            everything(),
            EntropyKind::Arithmetic,
            input.q,
        ),
{
    encode_bitplanes_with(input, EntropyKind::Arithmetic)
}

/// Encode a buffer with the coder `kind`.
pub fn encode_bitplanes_with(input: &BitPlaneInput, kind: EntropyKind) -> (r: Result<
    Vec<EncodedPacket>,
>)
    requires
        input.grid().ok(),
    ensures
        r is Ok <==> input.valid(),
        fails_with(r, Fault::InvalidData) <==> !input.valid(),
        r is Ok ==> coded_views(r->Ok_0@) == bitplanes_coded(
            input.grid(),
            input.coeffs@,
            everything(),
            kind,
            input.q,
        ),
{
    encode_bitplanes_filtered(input, kind, &ScanFilter::all())
}

/// Encode the part of a buffer that `filter` selects with the coder `kind`.
pub fn encode_bitplanes_filtered(
    input: &BitPlaneInput,
    kind: EntropyKind,
    filter: &ScanFilter,
) -> (r: Result<Vec<EncodedPacket>>)
    requires
        input.grid().ok(),
    ensures
        r is Ok <==> input.valid() && filter@.fits(input.grid().area()),
        fails_with(r, Fault::InvalidData) <==> !(input.valid() && filter@.fits(
            input.grid().area(),
        )),
        r is Ok ==> coded_views(r->Ok_0@) == bitplanes_coded(
            input.grid(),
            input.coeffs@,
            filter@,
            kind,
            input.q,
        ),
{
    match input.validate() {
        Ok(_) => {},
        Err(e) => return Err(e),
    }
    let n: usize = input.coeffs.len();
    match filter.validate(n) {
        Ok(_) => {},
        Err(e) => return Err(e),
    }
    let g = Grid { width: input.width, height: input.height, levels: input.levels };
    let window = window_of(g, filter);
    let mut state = ScanState::new(n);
    let mut packets: Vec<EncodedPacket> = Vec::new();
    let mut index: u8 = 0;
    assert(coded_views(packets@) =~= Seq::empty());
    while index < input.q
        invariant
            index <= input.q <= 31,
            g == input.grid(),
            g.ok(),
            input.coeffs@.len() == g.area(),
            filter@.fits(g.area()),
            window == window_patch(g, filter@),
            window.inside(g),
            state.wf(g.area()),
            state@ == planes_coded(g, input.coeffs@, filter@, kind, input.q, index as int).scan,
            coded_views(packets@) == planes_coded(
                g,
                input.coeffs@,
                filter@,
                kind,
                input.q,
                index as int,
            ).packets,
        decreases input.q - index,
    {
        let bp: u32 = (input.q - 1 - index) as u32;
        let ghost before = coded_views(packets@);
        state.reset_model(Ghost(g.area()));
        let mut sink = kind.make_sink();
        state.encode_pass(&mut sink, g, input.coeffs, filter, ScanPass::Significance, bp, window);
        let body = sink.finish_bits();
        packets.push(EncodedPacket { bit_plane: index, is_significance: true, body });
        assert(coded_views(packets@) =~= before.push(packets@.last()@));
        let ghost middle = coded_views(packets@);
        state.reset_model(Ghost(g.area()));
        let mut sink = kind.make_sink();
        state.encode_pass(&mut sink, g, input.coeffs, filter, ScanPass::Refinement, bp, window);
        let body = sink.finish_bits();
        packets.push(EncodedPacket { bit_plane: index, is_significance: false, body });
        assert(coded_views(packets@) =~= middle.push(packets@.last()@));
        index = index + 1;
    }
    Ok(packets)
}

/// Where the first packet of a bit plane is, among the packets from `k` on.
pub open spec fn index_from(packets: Seq<Coded>, bit_plane: u8, is_significance: bool, k: int) -> Option<
    int,
>
    decreases packets.len() - k,
{
    if k < 0 || k >= packets.len() {
        None
    } else if packets[k].bit_plane == bit_plane && packets[k].is_significance == is_significance {
        Some(k)
    } else {
        index_from(packets, bit_plane, is_significance, k + 1)
    }
}

/// The body of the first packet of a bit plane.
pub open spec fn body_of(packets: Seq<Coded>, bit_plane: u8, is_significance: bool) -> Option<Seq<u8>> {
    match index_from(packets, bit_plane, is_significance, 0) {
        Some(k) => Some(packets[k].body),
        None => None,
    }
}

/// Where the first packet of a bit plane is.
pub(crate) fn find_packet(packets: &[EncodedPacket], bit_plane: u8, is_significance: bool) -> (r: Option<
    usize,
>)
    ensures
        match r {
            Some(k) => k < packets@.len() && index_from(
                coded_views(packets@),
                bit_plane,
                is_significance,
                0,
            ) == Some(k as int),
            None => index_from(coded_views(packets@), bit_plane, is_significance, 0) is None,
        },
{
    let mut k: usize = 0;
    while k < packets.len()
        invariant
            k <= packets@.len(),
            index_from(coded_views(packets@), bit_plane, is_significance, 0) == index_from(
                coded_views(packets@),
                bit_plane,
                is_significance,
                k as int,
            ),
        decreases packets@.len() - k,
    {
        if packets[k].bit_plane == bit_plane && packets[k].is_significance == is_significance {
            return Some(k);
        }
        k = k + 1;
    }
    None
}

/// A pass of a bit plane with a fresh model, over a packet.
pub open spec fn pass_heard(
    g: Grid,
    f: Selection,
    kind: EntropyKind,
    body: Seq<u8>,
    pass: ScanPass,
    bp: u32,
    s: Hearing,
) -> Hearing {
    let p = window_patch(g, f);
    silent(
        heard(
            Channel { kind, bytes: body },
            g,
            f,
            pass,
            bp,
            p,
            Hearing { scan: with_fresh_model(s.scan), ..s },
            p.size(),
        ),
    )
}

/// The decoding side between two bit planes.
pub struct Hearsay {
    /// What has arrived.
    pub s: Hearing,
    /// A significance packet was missing, so that nothing further can be read.
    pub stopped: bool,
}

/// One more bit plane.
pub open spec fn plane_heard(
    g: Grid,
    f: Selection,
    kind: EntropyKind,
    q: u8,
    packets: Seq<Coded>,
    before: Hearsay,
    index: int,
) -> Hearsay {
    let bp = (q - 1 - index) as u32;
    let p = window_patch(g, f);
    if before.stopped {
        before
    } else {
        match body_of(packets, index as u8, true) {
            None => Hearsay { stopped: true, ..before },
            Some(body) => {
                let s = pass_heard(g, f, kind, body, ScanPass::Significance, bp, before.s);
                match body_of(packets, index as u8, false) {
                    Some(body) => Hearsay {
                        s: pass_heard(g, f, kind, body, ScanPass::Refinement, bp, s),
                        stopped: false,
                    },
                    None => Hearsay {
                        s: categories_advanced(g, f, bp, p, s, p.size()),
                        stopped: false,
                    },
                }
            },
        }
    }
}

/// The decoding side after the first `p` bit planes.
pub open spec fn planes_heard(
    g: Grid,
    f: Selection,
    kind: EntropyKind,
    q: u8,
    packets: Seq<Coded>,
    p: int,
) -> Hearsay
    decreases p,
{
    if p <= 0 {
        Hearsay { s: fresh_hearing(g.area(), q), stopped: false }
    } else {
        plane_heard(g, f, kind, q, packets, planes_heard(g, f, kind, q, packets, p - 1), p - 1)
    }
}

/// The coefficients that packets decode to.
pub open spec fn bitplanes_decoded(
    g: Grid,
    f: Selection,
    kind: EntropyKind,
    q: u8,
    packets: Seq<Coded>,
) -> Seq<i32> {
    reconstructed(planes_heard(g, f, kind, q, packets, q as int).s)
}

/// Decode the packets of [`encode_bitplanes`], or any part of them.
pub fn decode_bitplanes_multi(
    packets: &[EncodedPacket],
    width: usize,
    height: usize,
    q: u8,
    levels: u8,
) -> (r: Result<Vec<i32>>)
    requires
        (Grid { width, height, levels }).ok(),
    ensures
        r is Ok <==> 1 <= q <= 31,
        fails_with(r, Fault::InvalidData) <==> !(1 <= q <= 31),
        r is Ok ==> r->Ok_0@ == bitplanes_decoded(
            (Grid { width, height, levels }),
            everything(),
            EntropyKind::Arithmetic,
            q,
            coded_views(packets@),
        ),
{
    decode_bitplanes_multi_with(packets, width, height, q, levels, EntropyKind::Arithmetic)
}

/// Decode the packets of [`encode_bitplanes_with`], or any part of them.
pub fn decode_bitplanes_multi_with(
    packets: &[EncodedPacket],
    width: usize,
    height: usize,
    q: u8,
    levels: u8,
    kind: EntropyKind,
) -> (r: Result<Vec<i32>>)
    requires
        (Grid { width, height, levels }).ok(),
    ensures
        r is Ok <==> 1 <= q <= 31,
        fails_with(r, Fault::InvalidData) <==> !(1 <= q <= 31),
        r is Ok ==> r->Ok_0@ == bitplanes_decoded(
            (Grid { width, height, levels }),
            everything(),
            kind,
            q,
            coded_views(packets@),
        ),
{
    decode_bitplanes_filtered(packets, width, height, q, levels, kind, &ScanFilter::all())
}

/// Decode the packets of [`encode_bitplanes_filtered`], or any part of them.
/// The filter has to be the one of the encoder; coefficients that it leaves
/// out are 0.
pub fn decode_bitplanes_filtered(
    packets: &[EncodedPacket],
    width: usize,
    height: usize,
    q: u8,
    levels: u8,
    kind: EntropyKind,
    filter: &ScanFilter,
) -> (r: Result<Vec<i32>>)
    requires
        (Grid { width, height, levels }).ok(),
    ensures
        r is Ok <==> 1 <= q <= 31 && filter@.fits(width * height),
        fails_with(r, Fault::InvalidData) <==> !(1 <= q <= 31 && filter@.fits(width * height)),
        r is Ok ==> r->Ok_0@ == bitplanes_decoded(
            (Grid { width, height, levels }),
            filter@,
            kind,
            q,
            coded_views(packets@),
        ),
        r is Ok ==> r->Ok_0@.len() == width * height,
{
    let g = Grid { width, height, levels };
    let n: usize = width * height;
    match check_bit_planes(q) {
        Ok(_) => {},
        Err(e) => return Err(e),
    }
    match filter.validate(n) {
        Ok(_) => {},
        Err(e) => return Err(e),
    }
    let window = window_of(g, filter);
    let mut state = Gathered::new(n, q);
    let mut stopped: bool = false;
    let mut index: u8 = 0;
    let ghost all = coded_views(packets@);
    while index < q && !stopped
        invariant
            index <= q <= 31,
            g.ok(),
            all == coded_views(packets@),
            filter@.fits(g.area()),
            window == window_patch(g, filter@),
            window.inside(g),
            state.wf(g.area()),
            !stopped ==> (Hearsay { s: state.hearing(Seq::empty()), stopped }) == planes_heard(
                g,
                filter@,
                kind,
                q,
                all,
                index as int,
            ),
            stopped ==> planes_heard(g, filter@, kind, q, all, q as int) == (Hearsay {
                s: state.hearing(Seq::empty()),
                stopped: true,
            }),
        decreases (q - index) + (if stopped { 0int } else { 1 }),
    {
        let bp: u32 = (q - 1 - index) as u32;
        match find_packet(packets, index, true) {
            None => {
                proof {
                    lemma_stopped(g, filter@, kind, q, all, index + 1, q as int);
                }
                stopped = true;
            },
            Some(k) => {
                state.reset_model(Ghost(g.area()));
                if let Ok(mut source) = kind.make_source(packets[k].body.as_slice()) {
                    state.decode_pass(
                        &mut source,
                        g,
                        filter,
                        ScanPass::Significance,
                        bp,
                        window,
                    );
                }
                match find_packet(packets, index, false) {
                    Some(k) => {
                        state.reset_model(Ghost(g.area()));
                        if let Ok(mut source) = kind.make_source(packets[k].body.as_slice()) {
                            state.decode_pass(
                                &mut source,
                                g,
                                filter,
                                ScanPass::Refinement,
                                bp,
                                window,
                            );
                        }
                    },
                    None => {
                        state.advance_refinement_categories(g, filter, bp, window);
                    },
                }
                index = index + 1;
            },
        }
    }
    Ok(state.deadzone_reconstruct(Ghost(g.area())))
}

proof fn lemma_stopped(
    g: Grid,
    f: Selection,
    kind: EntropyKind,
    q: u8,
    packets: Seq<Coded>,
    a: int,
    b: int,
)
    requires
        1 <= a <= b,
        planes_heard(g, f, kind, q, packets, a).stopped,
    ensures
        planes_heard(g, f, kind, q, packets, b) == planes_heard(g, f, kind, q, packets, a),
    decreases b - a,
{
    if a < b {
        lemma_stopped(g, f, kind, q, packets, a, b - 1);
    }
}

// ---------------------------------------------------------------------------
// The priority order
// ---------------------------------------------------------------------------

/// The first number from `lo` on that leaves `phase` when divided by `step`.
pub open spec fn first_from(phase: int, step: int, lo: int) -> int {
    lo + (phase - lo) % step
}

/// The first number from `lo` on that leaves `phase` when divided by `step`,
/// where it is below `hi`.
fn lattice_start(phase: usize, step: usize, lo: usize, hi: usize) -> (r: Option<usize>)
    requires
        phase < step,
    ensures
        r is Some <==> first_from(phase as int, step as int, lo as int) < hi,
        r matches Some(v) ==> v == first_from(phase as int, step as int, lo as int),
{
    if lo >= hi {
        proof {
            vstd::arithmetic::div_mod::lemma_mod_bound(phase - lo, step as int);
        }
        return None;
    }
    let at: usize = lo % step;
    let more: usize = if at <= phase {
        phase - at
    } else {
        step - (at - phase)
    };
    proof {
        let m = step as int;
        let q = lo as int / m;
        vstd::arithmetic::div_mod::lemma_fundamental_div_mod(lo as int, m);
        let k = if at <= phase {
            -q
        } else {
            -q - 1
        };
        assert(m * k == -(m * q) - (if at <= phase {
            0int
        } else {
            m
        })) by (nonlinear_arith)
            requires
                k == (if at <= phase {
                    -q
                } else {
                    -q - 1
                }),
        ;
        assert(k * m == m * k) by (nonlinear_arith);
        vstd::arithmetic::div_mod::lemma_fundamental_div_mod_converse(
            phase - lo,
            m,
            k,
            more as int,
        );
    }
    if more < hi - lo {
        Some(lo + more)
    } else {
        None
    }
}

/// The places of a subband that a filter lets a pass visit.
pub open spec fn unit_patch(g: Grid, f: Selection, s: Subband) -> Patch {
    let (x0, x1, y0, y1) = f.limits(g.width as int, g.height as int);
    let step = pow2(s.level as nat) as int;
    let x = first_from(first_column(s), step, x0);
    let y = first_from(first_row(s), step, y0);
    if x < x1 && y < y1 {
        Patch {
            x0: x as usize,
            y0: y as usize,
            step: step as usize,
            columns: lattice_count(x, step, x1) as usize,
            rows: lattice_count(y, step, y1) as usize,
        }
    } else {
        Patch { x0: 0, y0: 0, step: step as usize, columns: 0, rows: 0 }
    }
}

/// How many of `first`, `first + step`, ... lie below `limit`, and the last
/// of them.
fn count_below(first: usize, step: usize, limit: usize) -> (n: usize)
    requires
        step >= 1,
        first < limit,
    ensures
        n == lattice_count(first as int, step as int, limit as int),
        n >= 1,
        first + (n - 1) * step < limit,
{
    let span: usize = limit - first;
    let n: usize = (span - 1) / step + 1;
    proof {
        let m = step as int;
        let k = (span - 1) as int;
        assert((k + m) / m == k / m + 1 && 0 <= k / m <= k && (k / m) * m <= k)
            by (nonlinear_arith)
            requires
                m >= 1,
                k >= 0,
        ;
    }
    n
}

/// The places of a subband that a filter lets a pass visit.
pub(crate) fn unit_window(g: Grid, f: &ScanFilter, s: Subband) -> (p: Patch)
    requires
        can_step(s.level as int),
        s.level >= 1 || s.kind is Ll,
    ensures
        p == unit_patch(g, f@, s),
        p.inside(g),
{
    let lat = subband_lattice(s);
    let (x0, x1, y0, y1) = f.bounds(g.width, g.height);
    match (lattice_start(lat.x0, lat.step, x0, x1), lattice_start(lat.y0, lat.step, y0, y1)) {
        (Some(x), Some(y)) => {
            let columns: usize = count_below(x, lat.step, x1);
            let rows: usize = count_below(y, lat.step, y1);
            Patch { x0: x, y0: y, step: lat.step, columns, rows }
        },
        _ => Patch { x0: 0, y0: 0, step: lat.step, columns: 0, rows: 0 },
    }
}

/// The encoder after the first `k` bit planes of a packet.
pub open spec fn units_told(
    g: Grid,
    coeffs: Seq<i32>,
    f: Selection,
    q: u8,
    units: Seq<SubbandBitPlane>,
    start: Telling,
    k: int,
) -> Telling
    decreases k,
{
    if k <= 0 {
        start
    } else {
        let u = units[k - 1];
        let p = unit_patch(g, f, u.subband);
        told(
            g,
            coeffs,
            f,
            ScanPass::Combined,
            (q - 1 - u.bp_from_msb) as u32,
            p,
            units_told(g, coeffs, f, q, units, start, k - 1),
            p.size(),
        )
    }
}

/// One more packet of the priority order.
pub open spec fn packet_coded(
    g: Grid,
    coeffs: Seq<i32>,
    f: Selection,
    kind: EntropyKind,
    q: u8,
    before: Coding,
    sp: Scheduled,
) -> Coding {
    let s = units_told(
        g,
        coeffs,
        f,
        q,
        sp.units,
        Telling { scan: before.scan, log: Seq::empty() },
        sp.units.len() as int,
    );
    Coding {
        scan: s.scan,
        packets: before.packets.push(
            Coded {
                bit_plane: sp.group_index as u8,
                is_significance: true,
                body: encoded(kind, s.log),
            },
        ),
    }
}

/// The encoding side after the first `k` packets of a schedule.
pub open spec fn schedule_coded(
    g: Grid,
    coeffs: Seq<i32>,
    f: Selection,
    kind: EntropyKind,
    q: u8,
    packets: Seq<Scheduled>,
    k: int,
) -> Coding
    decreases k,
{
    if k <= 0 {
        Coding { scan: fresh_scan(g.area()), packets: Seq::empty() }
    } else {
        packet_coded(
            g,
            coeffs,
            f,
            kind,
            q,
            schedule_coded(g, coeffs, f, kind, q, packets, k - 1),
            packets[k - 1],
        )
    }
}

/// What the schedule of a buffer depends on.
pub open spec fn schedule_params(g: Grid, q: u8, min_loss: u8) -> ScheduleParams {
    ScheduleParams {
        levels: g.levels,
        q: q as int,
        min_loss: min_loss as int,
        width: g.width as int,
        height: g.height as int,
    }
}

/// The packets of a buffer in the priority order.
pub open spec fn prioritized_coded(
    g: Grid,
    coeffs: Seq<i32>,
    f: Selection,
    kind: EntropyKind,
    q: u8,
    min_loss: u8,
) -> Seq<Coded> {
    let packets = schedule(schedule_params(g, q, min_loss));
    schedule_coded(g, coeffs, f, kind, q, packets, packets.len() as int).packets
}

fn validate_prioritized(levels: u8, q: u8) -> (r: Result<()>)
    ensures
        r is Ok <==> 1 <= q <= 31 && 1 <= levels <= 6,
        fails_with(r, Fault::InvalidData) <==> !(1 <= q <= 31 && 1 <= levels <= 6),
{
    match check_bit_planes(q) {
        Ok(_) => {},
        Err(e) => return Err(e),
    }
    if levels < 1 || levels > 6 {
        return Err(
            IcerError::InvalidData(
                with_number(
                    "priority interleaving requires decomposition levels in [1,6]; got ",
                    levels as u64,
                    "",
                ),
            ),
        );
    }
    Ok(())
}

/// Encode a buffer in the priority order: one packet for each entry of
/// [`packet_schedule`], which carries the index of its priority group.
/// `min_loss` leaves out whole bit planes of the less important subbands.
pub fn encode_bitplanes_prioritized(
    input: &BitPlaneInput,
    kind: EntropyKind,
    filter: &ScanFilter,
    min_loss: u8,
) -> (r: Result<Vec<EncodedPacket>>)
    requires
        input.width * input.height <= usize::MAX,
    ensures
        ({
            let accepted = input.valid() && 1 <= input.levels <= 6 && filter@.fits(
                input.grid().area(),
            );
            &&& r is Ok <==> accepted
            &&& fails_with(r, Fault::InvalidData) <==> !accepted
            &&& r is Ok ==> coded_views(r->Ok_0@) == prioritized_coded(
                input.grid(),
                input.coeffs@,
                filter@,
                kind,
                input.q,
                min_loss,
            )
        }),
{
    match input.validate() {
        Ok(_) => {},
        Err(e) => return Err(e),
    }
    match validate_prioritized(input.levels, input.q) {
        Ok(_) => {},
        Err(e) => return Err(e),
    }
    let n: usize = input.coeffs.len();
    match filter.validate(n) {
        Ok(_) => {},
        Err(e) => return Err(e),
    }
    let g = Grid { width: input.width, height: input.height, levels: input.levels };
    let q: u8 = input.q;
    let ghost par = schedule_params(g, q, min_loss);
    let plan = packet_schedule(g.levels, q as u32, min_loss, g.width, g.height);
    let ghost list = schedule(par);
    proof {
        lemma_schedule_units(par);
    }
    let mut state = ScanState::new(n);
    let mut packets: Vec<EncodedPacket> = Vec::new();
    assert(coded_views(packets@) =~= Seq::empty());
    let mut k: usize = 0;
    while k < plan.len()
        invariant
            k <= plan@.len(),
            1 <= q <= 31,
            g == input.grid(),
            g.ok(),
            1 <= g.levels <= 6,
            input.coeffs@.len() == g.area(),
            filter@.fits(g.area()),
            list == packet_views(plan@),
            list == schedule(par),
            par == schedule_params(g, q, min_loss),
            scheduled_units_ok(par, list),
            state.wf(g.area()),
            state@ == schedule_coded(g, input.coeffs@, filter@, kind, q, list, k as int).scan,
            coded_views(packets@) == schedule_coded(
                g,
                input.coeffs@,
                filter@,
                kind,
                q,
                list,
                k as int,
            ).packets,
        decreases plan@.len() - k,
    {
        let ghost before = coded_views(packets@);
        let ghost start = Telling { scan: state@, log: Seq::empty() };
        let ghost units = list[k as int].units;
        let mut sink = kind.make_sink();
        let mut i: usize = 0;
        while i < plan[k].units.len()
            invariant
                k < plan@.len(),
                list == packet_views(plan@),
                units == list[k as int].units,
                units == plan@[k as int].units@,
                i <= units.len(),
                1 <= q <= 31,
                g == input.grid(),
                g.ok(),
                1 <= g.levels <= 6,
                input.coeffs@.len() == g.area(),
                filter@.fits(g.area()),
                par == schedule_params(g, q, min_loss),
                scheduled_units_ok(par, list),
                state.wf(g.area()),
                sink.wf(),
                sink.kind() == kind,
                (Telling { scan: state@, log: sink.log() }) == units_told(
                    g,
                    input.coeffs@,
                    filter@,
                    q,
                    units,
                    start,
                    i as int,
                ),
            decreases units.len() - i,
        {
            let unit = plan[k].units[i];
            assert(is_unit(list[k as int].units[i as int], par.levels, par.q));
            let bp: u32 = q as u32 - 1 - unit.bp_from_msb;
            let p = unit_window(g, filter, unit.subband);
            state.encode_pass(&mut sink, g, input.coeffs, filter, ScanPass::Combined, bp, p);
            i = i + 1;
        }
        let body = sink.finish_bits();
        packets.push(
            EncodedPacket {
                bit_plane: plan[k].group_index as u8,
                is_significance: true,
                body,
            },
        );
        assert(coded_views(packets@) =~= before.push(packets@.last()@));
        k = k + 1;
    }
    Ok(packets)
}

/// The decoder after the first `k` bit planes of a packet.
pub open spec fn units_heard(
    ch: Channel,
    g: Grid,
    f: Selection,
    q: u8,
    units: Seq<SubbandBitPlane>,
    start: Hearing,
    k: int,
) -> Hearing
    decreases k,
{
    if k <= 0 {
        start
    } else {
        let u = units[k - 1];
        let p = unit_patch(g, f, u.subband);
        heard(
            ch,
            g,
            f,
            ScanPass::Combined,
            (q - 1 - u.bp_from_msb) as u32,
            p,
            units_heard(ch, g, f, q, units, start, k - 1),
            p.size(),
        )
    }
}

/// One more packet of the priority order. A packet that is missing, or of
/// another group, ends the stream.
pub open spec fn packet_heard(
    g: Grid,
    f: Selection,
    kind: EntropyKind,
    q: u8,
    packets: Seq<Coded>,
    before: Hearsay,
    sp: Scheduled,
    k: int,
) -> Hearsay {
    if before.stopped || k >= packets.len() || packets[k].bit_plane != sp.group_index as u8 {
        Hearsay { stopped: true, ..before }
    } else {
        Hearsay {
            s: silent(
                units_heard(
                    Channel { kind, bytes: packets[k].body },
                    g,
                    f,
                    q,
                    sp.units,
                    before.s,
                    sp.units.len() as int,
                ),
            ),
            stopped: false,
        }
    }
}

/// The decoding side after the first `k` packets of a schedule.
pub open spec fn schedule_heard(
    g: Grid,
    f: Selection,
    kind: EntropyKind,
    q: u8,
    plan: Seq<Scheduled>,
    packets: Seq<Coded>,
    k: int,
) -> Hearsay
    decreases k,
{
    if k <= 0 {
        Hearsay { s: fresh_hearing(g.area(), q), stopped: false }
    } else {
        packet_heard(
            g,
            f,
            kind,
            q,
            packets,
            schedule_heard(g, f, kind, q, plan, packets, k - 1),
            plan[k - 1],
            k - 1,
        )
    }
}

/// The coefficients that packets in the priority order decode to.
pub open spec fn prioritized_decoded(
    g: Grid,
    f: Selection,
    kind: EntropyKind,
    q: u8,
    min_loss: u8,
    packets: Seq<Coded>,
) -> Seq<i32> {
    let plan = schedule(schedule_params(g, q, min_loss));
    reconstructed(schedule_heard(g, f, kind, q, plan, packets, plan.len() as int).s)
}

proof fn lemma_schedule_stopped(
    g: Grid,
    f: Selection,
    kind: EntropyKind,
    q: u8,
    plan: Seq<Scheduled>,
    packets: Seq<Coded>,
    a: int,
    b: int,
)
    requires
        1 <= a <= b,
        schedule_heard(g, f, kind, q, plan, packets, a).stopped,
    ensures
        schedule_heard(g, f, kind, q, plan, packets, b) == schedule_heard(
            g,
            f,
            kind,
            q,
            plan,
            packets,
            a,
        ),
    decreases b - a,
{
    if a < b {
        lemma_schedule_stopped(g, f, kind, q, plan, packets, a, b - 1);
    }
}

/// Decode the packets of [`encode_bitplanes_prioritized`], or the first of
/// them. The filter and `min_loss` have to be those of the encoder.
pub fn decode_bitplanes_prioritized(
    packets: &[EncodedPacket],
    width: usize,
    height: usize,
    q: u8,
    levels: u8,
    kind: EntropyKind,
    filter: &ScanFilter,
    min_loss: u8,
) -> (r: Result<Vec<i32>>)
    requires
        width * height <= usize::MAX,
    ensures
        ({
            let accepted = 1 <= q <= 31 && 1 <= levels <= 6 && filter@.fits(width * height);
            &&& r is Ok <==> accepted
            &&& fails_with(r, Fault::InvalidData) <==> !accepted
            &&& r is Ok ==> r->Ok_0@ == prioritized_decoded(
                (Grid { width, height, levels }),
                filter@,
                kind,
                q,
                min_loss,
                coded_views(packets@),
            )
        }),
        r is Ok ==> r->Ok_0@.len() == width * height,
{
    match validate_prioritized(levels, q) {
        Ok(_) => {},
        Err(e) => return Err(e),
    }
    let g = Grid { width, height, levels };
    let n: usize = width * height;
    match filter.validate(n) {
        Ok(_) => {},
        Err(e) => return Err(e),
    }
    let ghost par = schedule_params(g, q, min_loss);
    let plan = packet_schedule(levels, q as u32, min_loss, width, height);
    let ghost list = schedule(par);
    let ghost all = coded_views(packets@);
    proof {
        lemma_schedule_units(par);
    }
    let mut state = Gathered::new(n, q);
    let mut stopped: bool = false;
    let mut k: usize = 0;
    while k < plan.len() && !stopped
        invariant
            k <= plan@.len(),
            1 <= q <= 31,
            g.ok(),
            1 <= g.levels <= 6,
            filter@.fits(g.area()),
            list == packet_views(plan@),
            list == schedule(par),
            all == coded_views(packets@),
            par == schedule_params(g, q, min_loss),
            scheduled_units_ok(par, list),
            state.wf(g.area()),
            !stopped ==> (Hearsay { s: state.hearing(Seq::empty()), stopped }) == schedule_heard(
                g,
                filter@,
                kind,
                q,
                list,
                all,
                k as int,
            ),
            stopped ==> schedule_heard(g, filter@, kind, q, list, all, list.len() as int) == (
            Hearsay { s: state.hearing(Seq::empty()), stopped: true }),
        decreases
                (plan@.len() - k) + (if stopped {
                    0int
                } else {
                    1
                }),
    {
        if k >= packets.len() || packets[k].bit_plane != plan[k].group_index as u8 {
            proof {
                lemma_schedule_stopped(
                    g,
                    filter@,
                    kind,
                    q,
                    list,
                    all,
                    k + 1,
                    list.len() as int,
                );
            }
            stopped = true;
        } else {
            let ghost start = state.hearing(Seq::empty());
            let ghost units = list[k as int].units;
            let ghost ch = Channel { kind, bytes: all[k as int].body };
            if let Ok(mut source) = kind.make_source(packets[k].body.as_slice()) {
                let mut i: usize = 0;
                while i < plan[k].units.len()
                    invariant
                        k < plan@.len(),
                        list == packet_views(plan@),
                        units == list[k as int].units,
                        units == plan@[k as int].units@,
                        i <= units.len(),
                        1 <= q <= 31,
                        g.ok(),
                        1 <= g.levels <= 6,
                        filter@.fits(g.area()),
                        par == schedule_params(g, q, min_loss),
                        scheduled_units_ok(par, list),
                        state.wf(g.area()),
                        source.wf(),
                        source.kind() == ch.kind,
                        source.channel() == ch.bytes,
                        state.hearing(source.asked()) == units_heard(
                            ch,
                            g,
                            filter@,
                            q,
                            units,
                            start,
                            i as int,
                        ),
                        state.hearing(Seq::empty()) == silent(state.hearing(source.asked())),
                    decreases units.len() - i,
                {
                    let unit = plan[k].units[i];
                    assert(is_unit(list[k as int].units[i as int], par.levels, par.q));
                    let bp: u32 = q as u32 - 1 - unit.bp_from_msb;
                    let p = unit_window(g, filter, unit.subband);
                    state.decode_pass(&mut source, g, filter, ScanPass::Combined, bp, p);
                    i = i + 1;
                }
            }
            k = k + 1;
        }
    }
    Ok(state.deadzone_reconstruct(Ghost(g.area())))
}

// ---------------------------------------------------------------------------
// One body
// ---------------------------------------------------------------------------

/// The encoder after the first `p` bit planes, where all of them share one
/// model and one coder and subbands are not told apart.
pub open spec fn single_told(g: Grid, coeffs: Seq<i32>, q: u8, p: int) -> Telling
    decreases p,
{
    let w = window_patch(g, everything());
    if p <= 0 {
        Telling { scan: fresh_scan(g.area()), log: Seq::empty() }
    } else {
        let bp = (q - p) as u32;
        let s = told(
            g,
            coeffs,
            everything(),
            ScanPass::Significance,
            bp,
            w,
            single_told(g, coeffs, q, p - 1),
            w.size(),
        );
        told(g, coeffs, everything(), ScanPass::Refinement, bp, w, s, w.size())
    }
}

/// Encode a buffer into one body, without regard to its subbands.
pub fn encode_bitplanes_single(input: &BitPlaneInput) -> (r: Result<Vec<u8>>)
    requires
        input.width * input.height <= usize::MAX,
    ensures
        r is Ok <==> input.valid(),
        fails_with(r, Fault::InvalidData) <==> !input.valid(),
        r is Ok ==> r->Ok_0@ == arith_encoded(
            single_told(
                (Grid { levels: 0, ..input.grid() }),
                input.coeffs@,
                input.q,
                input.q as int,
            ).log,
        ),
{
    match input.validate() {
        Ok(_) => {},
        Err(e) => return Err(e),
    }
    let g = Grid { width: input.width, height: input.height, levels: 0 };
    let filter = ScanFilter::all();
    assert(filter@ == everything());
    let window = window_of(g, &filter);
    let mut state = ScanState::new(input.coeffs.len());
    let mut sink = ArithEncoder::new();
    let mut index: u8 = 0;
    while index < input.q
        invariant
            index <= input.q <= 31,
            g == (Grid { levels: 0, ..input.grid() }),
            g.ok(),
            input.coeffs@.len() == g.area(),
            filter@ == everything(),
            window == window_patch(g, filter@),
            window.inside(g),
            state.wf(g.area()),
            BitSink::wf(&sink),
            (Telling { scan: state@, log: BitSink::log(&sink) }) == single_told(
                g,
                input.coeffs@,
                input.q,
                index as int,
            ),
        decreases input.q - index,
    {
        let bp: u32 = (input.q - 1 - index) as u32;
        state.encode_pass(&mut sink, g, input.coeffs, &filter, ScanPass::Significance, bp, window);
        state.encode_pass(&mut sink, g, input.coeffs, &filter, ScanPass::Refinement, bp, window);
        index = index + 1;
    }
    Ok(sink.finish())
}

/// The decoder after the first `p` bit planes of one body.
pub open spec fn single_heard(ch: Channel, g: Grid, q: u8, p: int) -> Hearing
    decreases p,
{
    let w = window_patch(g, everything());
    if p <= 0 {
        fresh_hearing(g.area(), q)
    } else {
        let bp = (q - p) as u32;
        let s = heard(
            ch,
            g,
            everything(),
            ScanPass::Significance,
            bp,
            w,
            single_heard(ch, g, q, p - 1),
            w.size(),
        );
        heard(ch, g, everything(), ScanPass::Refinement, bp, w, s, w.size())
    }
}

/// Decode the body of [`encode_bitplanes_single`].
pub fn decode_bitplanes(bytes: &[u8], width: usize, height: usize, q: u8) -> (r: Result<Vec<i32>>)
    requires
        width * height <= usize::MAX,
    ensures
        r is Ok <==> 1 <= q <= 31,
        fails_with(r, Fault::InvalidData) <==> !(1 <= q <= 31),
        r is Ok ==> r->Ok_0@ == plain(
            single_heard(
                (Channel { kind: EntropyKind::Arithmetic, bytes: bytes@ }),
                (Grid { width, height, levels: 0 }),
                q,
                q as int,
            ),
        ),
{
    let g = Grid { width, height, levels: 0 };
    let n: usize = width * height;
    match check_bit_planes(q) {
        Ok(_) => {},
        Err(e) => return Err(e),
    }
    let filter = ScanFilter::all();
    assert(filter@ == everything());
    let window = window_of(g, &filter);
    let mut state = Gathered::new(n, q);
    let ghost ch = Channel { kind: EntropyKind::Arithmetic, bytes: bytes@ };
    let mut source = match ArithDecoder::new(bytes) {
        Ok(d) => d,
        Err(e) => return Err(e),
    };
    let mut index: u8 = 0;
    while index < q
        invariant
            index <= q <= 31,
            g == (Grid { width, height, levels: 0 }),
            g.ok(),
            filter@ == everything(),
            window == window_patch(g, filter@),
            window.inside(g),
            state.wf(g.area()),
            BitSource::wf(&source),
            ch == (Channel { kind: EntropyKind::Arithmetic, bytes: bytes@ }),
            BitSource::channel(&source) == ch.bytes,
            state.hearing(BitSource::asked(&source)) == single_heard(ch, g, q, index as int),
            state.hearing(Seq::empty()) == silent(state.hearing(BitSource::asked(&source))),
        decreases q - index,
    {
        let bp: u32 = (q - 1 - index) as u32;
        state.decode_pass(&mut source, g, &filter, ScanPass::Significance, bp, window);
        state.decode_pass(&mut source, g, &filter, ScanPass::Refinement, bp, window);
        index = index + 1;
    }
    Ok(state.plain_values(Ghost(g.area())))
}

// ---------------------------------------------------------------------------
// Sizes
// ---------------------------------------------------------------------------

/// Every magnitude is below `2^q`.
pub open spec fn fits_planes(coeffs: Seq<i32>, q: int) -> bool {
    forall|i: int| 0 <= i < coeffs.len() ==> magnitude_of(#[trigger] coeffs[i]) < pow2(q as nat)
}

/// The smallest number of bit planes from `q` to 31 that holds every
/// magnitude; 31 where there is none.
pub open spec fn planes_from(coeffs: Seq<i32>, q: int) -> int
    decreases 31 - q,
{
    if q >= 31 || fits_planes(coeffs, q) {
        q
    } else {
        planes_from(coeffs, q + 1)
    }
}

/// The smallest number of bit planes from 1 to 31 that holds every magnitude;
/// 31 where there is none.
pub fn select_bit_plane_count(coeffs: &[i32]) -> (q: u8)
    ensures
        q == planes_from(coeffs@, 1),
        1 <= q <= 31,
        q < 31 ==> fits_planes(coeffs@, q as int),
{
    let mut max_abs: u32 = 0;
    let mut i: usize = 0;
    while i < coeffs.len()
        invariant
            i <= coeffs@.len(),
            forall|k: int| 0 <= k < i ==> magnitude_of(#[trigger] coeffs@[k]) <= max_abs,
            max_abs > 0 ==> exists|k: int|
                0 <= k < i && magnitude_of(#[trigger] coeffs@[k]) == max_abs,
        decreases coeffs@.len() - i,
    {
        let m: u32 = magnitude(coeffs[i]);
        assert(magnitude_of(coeffs@[i as int]) == m);
        if m > max_abs {
            max_abs = m;
        }
        i = i + 1;
    }
    let q: u8 = bits_for(max_abs);
    proof {
        lemma_planes_needed(coeffs@, max_abs, q, 1);
    }
    q
}

/// The number of bit planes follows from the largest magnitude.
pub proof fn lemma_planes_needed(coeffs: Seq<i32>, max_abs: u32, q: u8, p: int)
    requires
        forall|k: int| 0 <= k < coeffs.len() ==> magnitude_of(#[trigger] coeffs[k]) <= max_abs,
        max_abs > 0 ==> exists|k: int|
            0 <= k < coeffs.len() && magnitude_of(#[trigger] coeffs[k]) == max_abs,
        1 <= p <= q <= 31,
        q < 31 ==> max_abs < pow2(q as nat),
        q > 1 ==> max_abs >= pow2((q - 1) as nat),
    ensures
        planes_from(coeffs, p) == q,
        q < 31 ==> fits_planes(coeffs, q as int),
    decreases q - p,
{
    if q < 31 {
        assert(fits_planes(coeffs, q as int));
    }
    if p < q {
        vstd::arithmetic::power2::lemma_pow2_pos((q - 1) as nat);
        let k = choose|k: int|
            0 <= k < coeffs.len() && magnitude_of(#[trigger] coeffs[k]) == max_abs;
        if p < q - 1 {
            vstd::arithmetic::power2::lemma_pow2_strictly_increases(p as nat, (q - 1) as nat);
        }
        assert(magnitude_of(coeffs[k]) >= pow2(p as nat));
        assert(!fits_planes(coeffs, p));
        lemma_planes_needed(coeffs, max_abs, q, p + 1);
    }
}

/// The smallest number of bits from 1 to 31 that holds `m`; 31 where there is
/// none.
pub(crate) fn bits_for(m: u32) -> (q: u8)
    ensures
        1 <= q <= 31,
        q < 31 ==> m < pow2(q as nat),
        q > 1 ==> m >= pow2((q - 1) as nat),
{
    let mut q: u8 = 1;
    let mut top: u32 = 2;
    proof {
        vstd::arithmetic::power2::lemma2_to64();
    }
    while q < 31 && m >= top
        invariant
            1 <= q <= 31,
            top == pow2(q as nat),
            top <= 0x8000_0000,
            q > 1 ==> m >= pow2((q - 1) as nat),
        decreases 31 - q,
    {
        proof {
            vstd::arithmetic::power2::lemma_pow2_unfold((q + 1) as nat);
            vstd::arithmetic::power2::lemma2_to64();
            if q + 1 < 31 {
                vstd::arithmetic::power2::lemma_pow2_strictly_increases((q + 1) as nat, 31);
            }
        }
        q = q + 1;
        top = top * 2;
    }
    q
}

/// The lowest magnitude bit of which a packet of the plain order tells; `q`
/// where there is no packet.
pub open spec fn missing_planes(packets: Seq<Coded>, q: int) -> int
    decreases packets.len(),
{
    if packets.len() == 0 {
        q
    } else {
        let rest = missing_planes(packets.drop_last(), q);
        let here = if q - 1 - packets.last().bit_plane > 0 {
            q - 1 - packets.last().bit_plane
        } else {
            0
        };
        if packets.len() == 1 || here < rest {
            here
        } else {
            rest
        }
    }
}

/// Number of least significant bit planes of which no packet tells.
pub fn unavailable_bit_planes(packets: &[EncodedPacket], q: usize) -> (b: u32)
    requires
        q <= u32::MAX,
    ensures
        b == missing_planes(coded_views(packets@), q as int),
{
    let ghost all = coded_views(packets@);
    let mut best: u32 = q as u32;
    let mut i: usize = 0;
    assert(all.take(0) =~= Seq::empty());
    while i < packets.len()
        invariant
            i <= packets@.len(),
            q <= u32::MAX,
            all == coded_views(packets@),
            best == missing_planes(all.take(i as int), q as int),
        decreases packets@.len() - i,
    {
        let plane: usize = packets[i].bit_plane as usize;
        let here: u32 = if q > plane {
            (q - 1 - plane) as u32
        } else {
            0
        };
        proof {
            assert(all.take(i + 1).drop_last() =~= all.take(i as int));
            assert(all.take(i + 1).last() == packets@[i as int]@);
        }
        if i == 0 || here < best {
            best = here;
        }
        i = i + 1;
    }
    assert(all.take(all.len() as int) =~= all);
    best
}

/// **Coefficients get just enough bit planes**: as many as the largest of them
/// needs, and one where all are 0 or 1.
pub proof fn planes_are_just_enough(coeffs: Seq<i32>)
    ensures
        ({
            let q = planes_from(coeffs, 1);
            &&& 1 <= q <= 31
            &&& q < 31 ==> forall|i: int|
                0 <= i < coeffs.len() ==> magnitude_of(#[trigger] coeffs[i]) < pow2(q as nat)
            &&& q > 1 ==> exists|i: int|
                0 <= i < coeffs.len() && magnitude_of(#[trigger] coeffs[i]) >= pow2(
                    (q - 1) as nat,
                )
        }),
{
    lemma_just_enough(coeffs, 1);
}

proof fn lemma_just_enough(coeffs: Seq<i32>, from: int)
    requires
        1 <= from <= 31,
    ensures
        ({
            let q = planes_from(coeffs, from);
            &&& from <= q <= 31
            &&& q < 31 ==> fits_planes(coeffs, q)
            &&& q > from ==> !fits_planes(coeffs, q - 1)
        }),
    decreases 31 - from,
{
    if from < 31 && !fits_planes(coeffs, from) {
        lemma_just_enough(coeffs, from + 1);
    }
}

} // verus!
