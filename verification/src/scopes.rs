//! Deoptimization metadata: for every place where compiled code may be left, the interpreter frames
//! that it stands for. The compiler records scopes and sites and packs them into bytes; the runtime
//! decodes them again at a code offset.

use vstd::prelude::*;
use crate::leb::{
    holds, law_uleb_round_trip, lemma_holds_split, read_uleb, uleb_at, uleb_bytes, write_uleb,
};
use crate::loc::{
    law_list_round_trip, law_loc_round_trip, list_at, list_bytes, loc_at, loc_bytes, read_list,
    write_list, ValueLoc,
};
use crate::nmethod::Nmethod;

verus! {

/// The context of a scope. `L` is the type of a list of locations.
#[derive(Clone, PartialEq, Eq, Debug)]
pub enum CtxLoc<L = Vec<ValueLoc>> {
    /// The scope has none.
    Absent,
    /// Compiled code allocated the context.
    Materialized(ValueLoc),
    /// There is no context yet; its temporaries live here.
    Elided { temps: L },
}

pub type CtxLocView = CtxLoc<Seq<ValueLoc>>;

impl View for CtxLoc {
    type V = CtxLocView;

    open spec fn view(&self) -> CtxLocView {
        match *self {
            CtxLoc::Absent => CtxLoc::Absent,
            CtxLoc::Materialized(l) => CtxLoc::Materialized(l),
            CtxLoc::Elided { temps } => CtxLoc::Elided { temps: temps@ },
        }
    }
}

pub type ScopeId = u32;

/// The scope that an inlined scope returns to.
#[derive(Clone, PartialEq, Eq, Debug)]
pub struct SenderLink<L = Vec<ValueLoc>> {
    pub sender: ScopeId,
    /// The inlined send.
    pub sender_bci: u16,
    /// The sender's operand stack below the send's receiver and arguments.
    pub pending_stack: L,
}

/// One interpreter frame.
#[derive(Clone, PartialEq, Eq, Debug)]
pub struct ScopeDescData<L = Vec<ValueLoc>> {
    pub method_pool_ix: u32,
    pub is_block: bool,
    pub sender: Option<SenderLink<L>>,
    pub receiver: ValueLoc,
    /// Arguments, then temporaries.
    pub slots: L,
    pub ctx: CtxLoc<L>,
}

pub type ScopeView = ScopeDescData<Seq<ValueLoc>>;

impl View for ScopeDescData {
    type V = ScopeView;

    open spec fn view(&self) -> ScopeView {
        ScopeDescData {
            method_pool_ix: self.method_pool_ix,
            is_block: self.is_block,
            sender: match self.sender {
                Some(l) => Some(
                    SenderLink {
                        sender: l.sender,
                        sender_bci: l.sender_bci,
                        pending_stack: l.pending_stack@,
                    },
                ),
                None => None,
            },
            receiver: self.receiver,
            slots: self.slots@,
            ctx: self.ctx@,
        }
    }
}

/// What a safepoint is.
#[derive(Clone, Copy, PartialEq, Eq, Debug, Structural)]
pub enum SafepointKind {
    Call,
    LoopPoll,
    Alloc,
    UncommonTrap,
}

/// The state at one place where compiled code may be left. With `reexecute` the bytecode runs again
/// on the recorded stack; without, the send at `bci` has returned, and the stack is without its
/// receiver and arguments.
#[derive(Clone, PartialEq, Eq, Debug)]
pub struct SafepointState<L = Vec<ValueLoc>> {
    /// The innermost scope.
    pub scope: ScopeId,
    pub bci: u16,
    pub kind: SafepointKind,
    pub reexecute: bool,
    /// The innermost scope's operand stack.
    pub stack: L,
}

pub type SiteState = SafepointState<Seq<ValueLoc>>;

impl View for SafepointState {
    type V = SiteState;

    open spec fn view(&self) -> SiteState {
        SafepointState {
            scope: self.scope,
            bci: self.bci,
            kind: self.kind,
            reexecute: self.reexecute,
            stack: self.stack@,
        }
    }
}

/// The record of the state at a code offset: a call's return address, or the trap or poll itself.
#[derive(Clone, Copy, PartialEq, Eq, Debug, Structural)]
pub struct PcDesc {
    pub code_off: u32,
    pub site_off: u32,
}

/// A scope as the bytes have it: senders are byte offsets.
#[derive(Clone, PartialEq, Eq, Debug)]
pub struct DecodedScope<L = Vec<ValueLoc>> {
    pub method_pool_ix: u32,
    pub is_block: bool,
    /// The sender's offset, its send, and its pending stack.
    pub sender: Option<(u32, u16, L)>,
    pub receiver: ValueLoc,
    pub slots: L,
    pub ctx: CtxLoc<L>,
}

pub type DecodedView = DecodedScope<Seq<ValueLoc>>;

impl View for DecodedScope {
    type V = DecodedView;

    open spec fn view(&self) -> DecodedView {
        DecodedScope {
            method_pool_ix: self.method_pool_ix,
            is_block: self.is_block,
            sender: match self.sender {
                Some(s) => Some((s.0, s.1, s.2@)),
                None => None,
            },
            receiver: self.receiver,
            slots: self.slots@,
            ctx: self.ctx@,
        }
    }
}

/// A state as the bytes have it.
#[derive(Clone, PartialEq, Eq, Debug)]
pub struct DecodedSite<L = Vec<ValueLoc>> {
    /// The offset of the innermost scope.
    pub scope_off: u32,
    pub bci: u16,
    pub kind: SafepointKind,
    pub reexecute: bool,
    pub stack: L,
}

pub type DecodedSiteView = DecodedSite<Seq<ValueLoc>>;

impl View for DecodedSite {
    type V = DecodedSiteView;

    open spec fn view(&self) -> DecodedSiteView {
        DecodedSite {
            scope_off: self.scope_off,
            bci: self.bci,
            kind: self.kind,
            reexecute: self.reexecute,
            stack: self.stack@,
        }
    }
}

pub open spec fn ctx_kind(c: CtxLocView) -> int {
    match c {
        CtxLoc::Absent => 0,
        CtxLoc::Materialized(_) => 1,
        CtxLoc::Elided { .. } => 2,
    }
}

pub open spec fn ctx_bytes(c: CtxLocView) -> Seq<u8> {
    match c {
        CtxLoc::Absent => seq![],
        CtxLoc::Materialized(l) => loc_bytes(l),
        CtxLoc::Elided { temps } => list_bytes(temps),
    }
}

pub open spec fn ctx_at(kind: int, b: Seq<u8>, p: int) -> Option<(CtxLocView, int)> {
    if kind == 0 {
        Some((CtxLoc::Absent, p))
    } else if kind == 1 {
        match loc_at(b, p) {
            Some((l, e)) => Some((CtxLoc::Materialized(l), e)),
            None => None,
        }
    } else if kind == 2 {
        match list_at(b, p) {
            Some((temps, e)) => Some((CtxLoc::Elided { temps }, e)),
            None => None,
        }
    } else {
        None
    }
}

impl CtxLoc {
    fn kind(&self) -> (r: u8)
        ensures
            r as int == ctx_kind(self@),
    {
        match self {
            CtxLoc::Absent => 0,
            CtxLoc::Materialized(_) => 1,
            CtxLoc::Elided { .. } => 2,
        }
    }

    fn write(&self, out: &mut Vec<u8>)
        ensures
            final(out)@ == old(out)@ + ctx_bytes(self@),
    {
        match self {
            CtxLoc::Absent => {
                proof {
                    assert(out@ + ctx_bytes(self@) =~= out@);
                }
            },
            CtxLoc::Materialized(l) => l.write(out),
            CtxLoc::Elided { temps } => write_list(out, temps),
        }
    }

    fn read(kind: u8, buf: &[u8], pos: &mut usize) -> (r: CtxLoc)
        requires
            ctx_at(kind as int, buf@, *old(pos) as int) is Some,
        ensures
            ctx_at(kind as int, buf@, *old(pos) as int) == Some((r@, *final(pos) as int)),
    {
        if kind == 0 {
            CtxLoc::Absent
        } else if kind == 1 {
            CtxLoc::Materialized(ValueLoc::read(buf, pos))
        } else {
            CtxLoc::Elided { temps: read_list(buf, pos) }
        }
    }
}

pub open spec fn kind_bits(k: SafepointKind) -> int {
    match k {
        SafepointKind::Call => 0,
        SafepointKind::LoopPoll => 1,
        SafepointKind::Alloc => 2,
        SafepointKind::UncommonTrap => 3,
    }
}

pub open spec fn kind_of_bits(b: int) -> Option<SafepointKind> {
    if b == 0 {
        Some(SafepointKind::Call)
    } else if b == 1 {
        Some(SafepointKind::LoopPoll)
    } else if b == 2 {
        Some(SafepointKind::Alloc)
    } else if b == 3 {
        Some(SafepointKind::UncommonTrap)
    } else {
        None
    }
}

impl SafepointKind {
    fn to_bits(self) -> (r: u8)
        ensures
            r as int == kind_bits(self),
    {
        match self {
            SafepointKind::Call => 0,
            SafepointKind::LoopPoll => 1,
            SafepointKind::Alloc => 2,
            SafepointKind::UncommonTrap => 3,
        }
    }

    fn from_bits(b: u8) -> (r: SafepointKind)
        requires
            b < 4,
        ensures
            kind_of_bits(b as int) == Some(r),
    {
        if b == 0 {
            SafepointKind::Call
        } else if b == 1 {
            SafepointKind::LoopPoll
        } else if b == 2 {
            SafepointKind::Alloc
        } else {
            SafepointKind::UncommonTrap
        }
    }
}

/// Whether there is a sender, whether the scope is a block's, and the kind of context, from the
/// lowest bit up.
pub open spec fn scope_flags(s: ScopeView) -> u8 {
    ((if s.sender is Some {
        1int
    } else {
        0
    }) + (if s.is_block {
        2int
    } else {
        0
    }) + 4 * ctx_kind(s.ctx)) as u8
}

pub open spec fn sender_bytes(s: ScopeView, offs: Seq<u32>) -> Seq<u8> {
    match s.sender {
        Some(l) => uleb_bytes(offs[l.sender as int] as nat) + (uleb_bytes(l.sender_bci as nat)
            + list_bytes(l.pending_stack)),
        None => seq![],
    }
}

/// A scope record; `offs` are the offsets of the records before it.
pub open spec fn scope_bytes(s: ScopeView, offs: Seq<u32>) -> Seq<u8> {
    seq![scope_flags(s)] + (uleb_bytes(s.method_pool_ix as nat) + (sender_bytes(s, offs) + (
    loc_bytes(s.receiver) + (list_bytes(s.slots) + ctx_bytes(s.ctx)))))
}

pub open spec fn site_flags(s: SiteState) -> u8 {
    ((if s.reexecute {
        1int
    } else {
        0
    }) + 2 * kind_bits(s.kind)) as u8
}

/// A safepoint record.
pub open spec fn site_bytes(s: SiteState, offs: Seq<u32>) -> Seq<u8> {
    uleb_bytes(offs[s.scope as int] as nat) + (uleb_bytes(s.bci as nat) + (seq![site_flags(s)]
        + list_bytes(s.stack)))
}

pub open spec fn sender_at(present: bool, b: Seq<u8>, p: int) -> Option<
    (Option<(u32, u16, Seq<ValueLoc>)>, int),
> {
    if !present {
        Some((None, p))
    } else {
        match uleb_at(b, p) {
            Some((off, e1)) => match uleb_at(b, e1) {
                Some((bci, e2)) => match list_at(b, e2) {
                    Some((stack, e3)) => Some((Some((off as u32, bci as u16, stack)), e3)),
                    None => None,
                },
                None => None,
            },
            None => None,
        }
    }
}

/// The scope record at `p`.
pub open spec fn scope_at(b: Seq<u8>, p: int) -> Option<DecodedView> {
    if p < 0 || p >= b.len() {
        None
    } else {
        let flags = b[p] as int;
        match uleb_at(b, p + 1) {
            Some((ix, e1)) => match sender_at(flags % 2 == 1, b, e1) {
                Some((sender, e2)) => match loc_at(b, e2) {
                    Some((receiver, e3)) => match list_at(b, e3) {
                        Some((slots, e4)) => match ctx_at((flags / 4) % 4, b, e4) {
                            Some((ctx, _)) => Some(
                                DecodedScope {
                                    method_pool_ix: ix as u32,
                                    is_block: (flags / 2) % 2 == 1,
                                    sender,
                                    receiver,
                                    slots,
                                    ctx,
                                },
                            ),
                            None => None,
                        },
                        None => None,
                    },
                    None => None,
                },
                None => None,
            },
            None => None,
        }
    }
}

/// The safepoint record at `p`.
pub open spec fn site_at(b: Seq<u8>, p: int) -> Option<DecodedSiteView> {
    match uleb_at(b, p) {
        Some((off, e1)) => match uleb_at(b, e1) {
            Some((bci, e2)) => if e2 >= b.len() {
                None
            } else {
                match (kind_of_bits((b[e2] as int / 2) % 8), list_at(b, e2 + 1)) {
                    (Some(kind), Some((stack, _))) => Some(
                        DecodedSite {
                            scope_off: off as u32,
                            bci: bci as u16,
                            kind,
                            reexecute: b[e2] as int % 2 == 1,
                            stack,
                        },
                    ),
                    _ => None,
                }
            },
            None => None,
        },
        None => None,
    }
}

/// Decodes the scope record at `off`.
pub fn decode_scope(blob: &[u8], off: u32) -> (r: DecodedScope)
    requires
        scope_at(blob@, off as int) is Some,
    ensures
        scope_at(blob@, off as int) == Some(r@),
{
    let mut pos: usize = off as usize;
    let flags: u8 = blob[pos];
    pos = pos + 1;
    let has_sender = flags % 2 == 1;
    let is_block = (flags / 2) % 2 == 1;
    let ctx_kind: u8 = (flags / 4) % 4;
    let method_pool_ix: u32 = read_uleb(blob, &mut pos) as u32;
    let sender = if has_sender {
        let sender_off: u32 = read_uleb(blob, &mut pos) as u32;
        let sender_bci: u16 = read_uleb(blob, &mut pos) as u16;
        let pending = read_list(blob, &mut pos);
        Some((sender_off, sender_bci, pending))
    } else {
        None
    };
    let receiver = ValueLoc::read(blob, &mut pos);
    let slots = read_list(blob, &mut pos);
    let ctx = CtxLoc::read(ctx_kind, blob, &mut pos);
    DecodedScope { method_pool_ix, is_block, sender, receiver, slots, ctx }
}

/// Decodes the safepoint record at `site_off`.
pub fn decode_site(blob: &[u8], site_off: u32) -> (r: DecodedSite)
    requires
        site_at(blob@, site_off as int) is Some,
    ensures
        site_at(blob@, site_off as int) == Some(r@),
{
    let mut pos: usize = site_off as usize;
    let scope_off: u32 = read_uleb(blob, &mut pos) as u32;
    let bci: u16 = read_uleb(blob, &mut pos) as u16;
    let flags: u8 = blob[pos];
    pos = pos + 1;
    let reexecute = flags % 2 == 1;
    let kind = SafepointKind::from_bits((flags / 2) % 8);
    let stack = read_list(blob, &mut pos);
    DecodedSite { scope_off, bci, kind, reexecute, stack }
}

/// The descriptors are sorted by code offset.
pub open spec fn descs_sorted(d: Seq<PcDesc>) -> bool {
    forall|j: int, k: int|
        0 <= j <= k < d.len() ==> (#[trigger] d[j]).code_off <= (#[trigger] d[k]).code_off
}

pub open spec fn off_recorded(d: Seq<PcDesc>, code_off: u32) -> bool {
    exists|k: int| 0 <= k < d.len() && (#[trigger] d[k]).code_off == code_off
}

impl PcDesc {
    /// The descriptor of a recorded code offset. If several have it, which one is left open.
    pub fn find(descs: &[PcDesc], code_off: u32) -> (r: &PcDesc)
        requires
            descs_sorted(descs@),
            off_recorded(descs@, code_off),
        ensures
            r.code_off == code_off,
            descs@.contains(*r),
    {
        let mut lo: usize = 0;
        let mut hi: usize = descs.len();
        let ghost at = choose|k: int| 0 <= k < descs@.len() && (#[trigger] descs@[k]).code_off == code_off;
        loop
            invariant
                descs_sorted(descs@),
                lo <= at < hi <= descs@.len(),
                descs@[at].code_off == code_off,
            decreases hi - lo,
        {
            let mid: usize = lo + (hi - lo) / 2;
            let d = &descs[mid];
            if d.code_off == code_off {
                assert(descs@[mid as int] == *d);
                return d;
            } else if d.code_off < code_off {
                lo = mid + 1;
            } else {
                hi = mid;
            }
        }
    }

    /// The descriptor of a code offset recorded for a compiled method.
    pub fn find_in(nm: &Nmethod, code_off: u32) -> (r: &PcDesc)
        requires
            descs_sorted(nm.deopt_pcdescs@),
            off_recorded(nm.deopt_pcdescs@, code_off),
        ensures
            r.code_off == code_off,
            nm.deopt_pcdescs@.contains(*r),
    {
        PcDesc::find(nm.deopt_pcdescs.as_slice(), code_off)
    }
}

/// Collects the scopes and sites of one compilation.
#[derive(Default)]
pub struct ScopeDescRecorder {
    scopes: Vec<ScopeDescData>,
    sites: Vec<(u32, SafepointState)>,
}

/// What has been recorded: scopes, and sites by code offset.
pub ghost struct Recording {
    pub scopes: Seq<ScopeView>,
    pub sites: Seq<(u32, SiteState)>,
}

impl Recording {
    /// Senders come before the scopes they send to, and sites name scopes that exist.
    pub open spec fn wf(self) -> bool {
        &&& forall|k: int| 0 <= k < self.scopes.len() ==> sender_before(#[trigger] self.scopes[k], k)
        &&& forall|k: int|
            0 <= k < self.sites.len() ==> (#[trigger] self.sites[k]).1.scope < self.scopes.len()
    }
}

pub open spec fn sender_before(s: ScopeView, k: int) -> bool {
    s.sender matches Some(l) ==> l.sender < k
}

pub open spec fn scopes_view(s: Seq<ScopeDescData>) -> Seq<ScopeView> {
    Seq::new(s.len(), |k: int| s[k]@)
}

pub open spec fn states_view(s: Seq<(u32, SafepointState)>) -> Seq<(u32, SiteState)> {
    Seq::new(s.len(), |k: int| (s[k].0, s[k].1@))
}

impl View for ScopeDescRecorder {
    type V = Recording;

    closed spec fn view(&self) -> Recording {
        Recording { scopes: scopes_view(self.scopes@), sites: states_view(self.sites@) }
    }
}

/// The records of the first `n` scopes, and their offsets.
pub open spec fn packed_scopes(scopes: Seq<ScopeView>, n: int) -> (Seq<u8>, Seq<u32>)
    decreases n,
{
    if n <= 0 {
        (seq![], seq![])
    } else {
        let (b, offs) = packed_scopes(scopes, n - 1);
        (b + scope_bytes(scopes[n - 1], offs), offs.push(b.len() as u32))
    }
}

/// The records of the first `n` sites behind those of the scopes, and their descriptors in the order
/// of recording.
pub open spec fn packed_sites(r: Recording, n: int) -> (Seq<u8>, Seq<PcDesc>)
    decreases n,
{
    let (b0, offs) = packed_scopes(r.scopes, r.scopes.len() as int);
    if n <= 0 {
        (b0, seq![])
    } else {
        let (b, descs) = packed_sites(r, n - 1);
        let (code_off, state) = r.sites[n - 1];
        (b + site_bytes(state, offs), descs.push(PcDesc { code_off, site_off: b.len() as u32 }))
    }
}

/// Puts a descriptor behind those whose code offset is not larger.
pub open spec fn insert_desc(o: Seq<PcDesc>, d: PcDesc) -> Seq<PcDesc>
    decreases o.len(),
{
    if o.len() == 0 {
        seq![d]
    } else if o.last().code_off <= d.code_off {
        o.push(d)
    } else {
        insert_desc(o.drop_last(), d).push(o.last())
    }
}

/// The first `n` descriptors by code offset; those of one offset stay in order.
pub open spec fn sorted_descs(d: Seq<PcDesc>, n: int) -> Seq<PcDesc>
    decreases n,
{
    if n <= 0 {
        seq![]
    } else {
        insert_desc(sorted_descs(d, n - 1), d[n - 1])
    }
}

/// The packed form of a recording: its bytes, and its descriptors by code offset.
pub open spec fn packed(r: Recording) -> (Seq<u8>, Seq<PcDesc>) {
    let (b, descs) = packed_sites(r, r.sites.len() as int);
    (b, sorted_descs(descs, descs.len() as int))
}

fn write_scope_record(out: &mut Vec<u8>, scope: &ScopeDescData, scope_offs: &Vec<u32>)
    requires
        sender_before(scope@, scope_offs@.len() as int),
    ensures
        final(out)@ == old(out)@ + scope_bytes(scope@, scope_offs@),
{
    let ghost before = out@;
    let ghost v = scope@;
    let flags: u8 = (if scope.sender.is_some() {
        1
    } else {
        0
    }) + (if scope.is_block {
        2
    } else {
        0
    }) + 4 * scope.ctx.kind();
    out.push(flags);
    proof {
        assert(flags == scope_flags(v));
        assert(out@ =~= before + seq![flags]);
    }
    write_uleb(out, scope.method_pool_ix as u64);
    let ghost head = out@;
    if let Some(link) = &scope.sender {
        write_uleb(out, scope_offs[link.sender as usize] as u64);
        write_uleb(out, link.sender_bci as u64);
        write_list(out, &link.pending_stack);
    }
    proof {
        assert(out@ =~= head + sender_bytes(v, scope_offs@));
    }
    scope.receiver.write(out);
    write_list(out, &scope.slots);
    scope.ctx.write(out);
    proof {
        lemma_joined(
            before,
            seq![flags],
            uleb_bytes(v.method_pool_ix as nat),
            sender_bytes(v, scope_offs@),
            loc_bytes(v.receiver),
            list_bytes(v.slots),
            ctx_bytes(v.ctx),
        );
    }
}

/// Appending part by part appends the whole.
proof fn lemma_joined(
    a: Seq<u8>,
    b: Seq<u8>,
    c: Seq<u8>,
    d: Seq<u8>,
    e: Seq<u8>,
    f: Seq<u8>,
    g: Seq<u8>,
)
    ensures
        a + b + c + d + e + f + g == a + (b + (c + (d + (e + (f + g))))),
{
    assert(a + b + c + d + e + f + g =~= a + (b + (c + (d + (e + (f + g))))));
}

fn write_safepoint_record(out: &mut Vec<u8>, state: &SafepointState, scope_offs: &Vec<u32>)
    requires
        state.scope < scope_offs@.len(),
    ensures
        final(out)@ == old(out)@ + site_bytes(state@, scope_offs@),
{
    let ghost before = out@;
    write_uleb(out, scope_offs[state.scope as usize] as u64);
    write_uleb(out, state.bci as u64);
    let mut flags: u8 = 2 * state.kind.to_bits();
    if state.reexecute {
        flags = flags + 1;
    }
    out.push(flags);
    write_list(out, &state.stack);
    proof {
        assert(out@ =~= before + site_bytes(state@, scope_offs@));
    }
}

fn sort_descs(descs: &Vec<PcDesc>) -> (r: Vec<PcDesc>)
    ensures
        r@ == sorted_descs(descs@, descs@.len() as int),
{
    let mut r: Vec<PcDesc> = Vec::new();
    let n: usize = descs.len();
    for i in 0..n
        invariant
            n == descs@.len(),
            r@ == sorted_descs(descs@, i as int),
    {
        let d = descs[i];
        let mut k: usize = r.len();
        proof {
            assert(r@.take(k as int) =~= r@);
            assert(insert_desc(r@, d) + r@.skip(k as int) =~= insert_desc(r@, d));
        }
        while k > 0 && r[k - 1].code_off > d.code_off
            invariant
                k <= r@.len(),
                insert_desc(r@, d) == insert_desc(r@.take(k as int), d) + r@.skip(k as int),
            decreases k,
        {
            proof {
                let t = r@.take(k as int);
                assert(t.drop_last() =~= r@.take(k - 1));
                assert(insert_desc(t.drop_last(), d).push(t.last()) + r@.skip(k as int)
                    =~= insert_desc(r@.take(k - 1), d) + r@.skip(k - 1));
            }
            k -= 1;
        }
        proof {
            let t = r@.take(k as int);
            if k > 0 {
                assert(t.last() == r@[k - 1]);
                assert(insert_desc(t, d) == t.push(d));
            } else {
                assert(insert_desc(t, d) =~= t.push(d));
            }
            assert(r@.insert(k as int, d) =~= t.push(d) + r@.skip(k as int));
        }
        r.insert(k, d);
    }
    r
}

impl ScopeDescRecorder {
    pub fn new() -> (r: ScopeDescRecorder)
        ensures
            r@ == (Recording { scopes: seq![], sites: seq![] }),
            r@.wf(),
    {
        let r = ScopeDescRecorder { scopes: Vec::new(), sites: Vec::new() };
        proof {
            assert(r@.scopes =~= seq![]);
            assert(r@.sites =~= seq![]);
        }
        r
    }

    /// Records a scope, after its sender, and returns its number.
    pub fn begin_scope(&mut self, data: ScopeDescData) -> (r: ScopeId)
        requires
            sender_before(data@, old(self)@.scopes.len() as int),
        ensures
            final(self)@ == (Recording { scopes: old(self)@.scopes.push(data@), ..old(self)@ }),
            r == old(self)@.scopes.len() as u32,
            old(self)@.wf() ==> final(self)@.wf(),
    {
        let ghost before = self@;
        let id: ScopeId = self.scopes.len() as ScopeId;
        self.scopes.push(data);
        proof {
            assert(self@.scopes =~= before.scopes.push(data@));
            assert(self@.sites =~= before.sites);
        }
        id
    }

    /// Records the state at a code offset. A call keys on its return address, so it is never run
    /// again.
    pub fn record_site(&mut self, code_off: u32, state: SafepointState)
        requires
            state.scope < old(self)@.scopes.len(),
            !(state.kind is Call && state.reexecute),
        ensures
            final(self)@ == (Recording {
                sites: old(self)@.sites.push((code_off, state@)),
                ..old(self)@
            }),
            old(self)@.wf() ==> final(self)@.wf(),
    {
        let ghost before = self@;
        self.sites.push((code_off, state));
        proof {
            assert(self@.scopes =~= before.scopes);
            assert(self@.sites =~= before.sites.push((code_off, state@)));
        }
    }

    /// Packs the recording: the bytes, and the descriptors by code offset.
    pub fn pack(self) -> (r: (Vec<u8>, Vec<PcDesc>))
        requires
            self@.wf(),
        ensures
            (r.0@, r.1@) == packed(self@),
    {
        let ghost rec = self@;
        let mut blob: Vec<u8> = Vec::new();
        let mut offs: Vec<u32> = Vec::new();
        let n: usize = self.scopes.len();
        for k in 0..n
            invariant
                n == self.scopes@.len(),
                rec == self@,
                rec.wf(),
                offs@.len() == k,
                (blob@, offs@) == packed_scopes(rec.scopes, k as int),
        {
            let off: u32 = blob.len() as u32;
            proof {
                assert(rec.scopes[k as int] == self.scopes@[k as int]@);
                assert(sender_before(rec.scopes[k as int], k as int));
            }
            write_scope_record(&mut blob, &self.scopes[k], &offs);
            offs.push(off);
        }
        let mut descs: Vec<PcDesc> = Vec::new();
        let m: usize = self.sites.len();
        for k in 0..m
            invariant
                m == self.sites@.len(),
                rec == self@,
                rec.wf(),
                offs@.len() == rec.scopes.len(),
                offs@ == packed_scopes(rec.scopes, rec.scopes.len() as int).1,
                (blob@, descs@) == packed_sites(rec, k as int),
        {
            let site_off: u32 = blob.len() as u32;
            let ghost st = rec.sites[k as int];
            proof {
                assert(st == (self.sites@[k as int].0, self.sites@[k as int].1@));
                assert(st.1.scope < rec.scopes.len());
            }
            write_safepoint_record(&mut blob, &self.sites[k].1, &offs);
            descs.push(PcDesc { code_off: self.sites[k].0, site_off });
        }
        let sorted = sort_descs(&descs);
        (blob, sorted)
    }
}

/// The scopes from offset `next` outwards, if they are `n`.
pub open spec fn chain(b: Seq<u8>, next: Option<u32>, n: nat) -> Option<Seq<DecodedView>>
    decreases n,
{
    match next {
        None => if n == 0 {
            Some(seq![])
        } else {
            None
        },
        Some(off) => if n == 0 {
            None
        } else {
            match scope_at(b, off as int) {
                Some(s) => match chain(b, sender_off(s), (n - 1) as nat) {
                    Some(rest) => Some(seq![s] + rest),
                    None => None,
                },
                None => None,
            }
        },
    }
}

pub open spec fn sender_off(s: DecodedView) -> Option<u32> {
    match s.sender {
        Some(l) => Some(l.0),
        None => None,
    }
}

/// The chain from `next` ends.
pub open spec fn chain_ends(b: Seq<u8>, next: Option<u32>) -> bool {
    exists|n: nat| (#[trigger] chain(b, next, n)) is Some
}

pub open spec fn decoded_view(s: Seq<DecodedScope>) -> Seq<DecodedView> {
    Seq::new(s.len(), |k: int| s[k]@)
}

/// The state at one code offset: the safepoint record, and the scopes it stands for.
pub struct DeoptState<'a> {
    pub blob: &'a [u8],
    pub site: DecodedSite,
}

impl<'a> DeoptState<'a> {
    /// The bytes that the state was decoded from.
    pub open spec fn bytes(self) -> Seq<u8> {
        self.blob@
    }

    /// The state at a recorded code offset of a compiled method.
    pub fn at(nm: &'a Nmethod, code_off: u32) -> (r: DeoptState<'a>)
        requires
            descs_sorted(nm.deopt_pcdescs@),
            off_recorded(nm.deopt_pcdescs@, code_off),
            sites_decode(nm.deopt_scopes@, nm.deopt_pcdescs@, code_off),
        ensures
            r.bytes() == nm.deopt_scopes@,
            is_state(nm.deopt_scopes@, nm.deopt_pcdescs@, code_off, r.site@),
    {
        DeoptState::at_parts(nm.deopt_scopes.as_slice(), nm.deopt_pcdescs.as_slice(), code_off)
    }

    /// The state at a recorded code offset.
    pub fn at_parts(blob: &'a [u8], pcdescs: &[PcDesc], code_off: u32) -> (r: DeoptState<'a>)
        requires
            descs_sorted(pcdescs@),
            off_recorded(pcdescs@, code_off),
            sites_decode(blob@, pcdescs@, code_off),
        ensures
            r.bytes() == blob@,
            is_state(blob@, pcdescs@, code_off, r.site@),
    {
        let pc = PcDesc::find(pcdescs, code_off);
        let site = decode_site(blob, pc.site_off);
        DeoptState { blob, site }
    }

    /// The scope that the safepoint record names.
    pub fn innermost(&self) -> (r: DecodedScope)
        requires
            scope_at(self.bytes(), self.site.scope_off as int) is Some,
        ensures
            scope_at(self.bytes(), self.site.scope_off as int) == Some(r@),
    {
        decode_scope(self.blob, self.site.scope_off)
    }

    /// The scopes, innermost first.
    pub fn scopes(&self) -> (r: ScopeChainIter<'a>)
        ensures
            r.bytes() == self.bytes(),
            r.next_scope() == Some(self.site.scope_off),
    {
        ScopeChainIter { blob: self.blob, next_off: Some(self.site.scope_off) }
    }
}

/// Every descriptor of the code offset leads to a safepoint record.
pub open spec fn sites_decode(b: Seq<u8>, descs: Seq<PcDesc>, code_off: u32) -> bool {
    forall|d: PcDesc|
        #[trigger] descs.contains(d) && d.code_off == code_off ==> site_at(
            b,
            d.site_off as int,
        ) is Some
}

/// The state is that of a descriptor of the code offset.
pub open spec fn is_state(
    b: Seq<u8>,
    descs: Seq<PcDesc>,
    code_off: u32,
    site: DecodedSiteView,
) -> bool {
    exists|d: PcDesc|
        #[trigger] descs.contains(d) && d.code_off == code_off && site_at(b, d.site_off as int)
            == Some(site)
}

/// A walk over the scopes of a state, innermost first.
pub struct ScopeChainIter<'a> {
    blob: &'a [u8],
    next_off: Option<u32>,
}

impl<'a> ScopeChainIter<'a> {
    pub closed spec fn bytes(self) -> Seq<u8> {
        self.blob@
    }

    /// The offset of the scope to come.
    pub closed spec fn next_scope(self) -> Option<u32> {
        self.next_off
    }

    /// The next scope; none behind the outermost.
    pub fn next(&mut self) -> (r: Option<DecodedScope>)
        requires
            old(self).next_scope() matches Some(off) ==> scope_at(
                old(self).bytes(),
                off as int,
            ) is Some,
        ensures
            final(self).bytes() == old(self).bytes(),
            match old(self).next_scope() {
                None => r is None && final(self).next_scope() is None,
                Some(off) => r matches Some(s) && scope_at(old(self).bytes(), off as int) == Some(
                    s@,
                ) && final(self).next_scope() == sender_off(s@),
            },
    {
        match self.next_off {
            None => None,
            Some(off) => {
                let scope = decode_scope(self.blob, off);
                self.next_off = match &scope.sender {
                    Some(l) => Some(l.0),
                    None => None,
                };
                Some(scope)
            },
        }
    }

    /// All the scopes still to come, of a walk that ends.
    pub fn collect(self) -> (r: Vec<DecodedScope>)
        requires
            chain_ends(self.bytes(), self.next_scope()),
        ensures
            chain(self.bytes(), self.next_scope(), r@.len()) == Some(decoded_view(r@)),
    {
        let mut it = self;
        let mut r: Vec<DecodedScope> = Vec::new();
        let ghost b = self.bytes();
        let ghost total = choose|n: nat| (#[trigger] chain(b, self.next_scope(), n)) is Some;
        let ghost all = chain(b, self.next_scope(), total)->0;
        let ghost mut left = total;
        proof {
            assert(decoded_view(r@) + all =~= all);
        }
        while it.next_off.is_some()
            invariant
                it.bytes() == b,
                chain(b, it.next_scope(), left) matches Some(rest) && decoded_view(r@) + rest
                    == all,
                r@.len() + left == total,
            decreases left,
        {
            let ghost before = r@;
            let ghost rest = chain(b, it.next_scope(), left)->0;
            if let Some(s) = it.next() {
                r.push(s);
                proof {
                    let tail = chain(b, it.next_scope(), (left - 1) as nat)->0;
                    assert(rest == seq![s@] + tail);
                    assert(decoded_view(before) + (seq![s@] + tail) =~= decoded_view(r@) + tail);
                    left = (left - 1) as nat;
                }
            }
        }
        proof {
            assert(left == 0);
            assert(decoded_view(r@) + seq![] =~= decoded_view(r@));
        }
        r
    }
}

/// A recorded scope as the bytes have it.
pub open spec fn as_decoded(s: ScopeView, offs: Seq<u32>) -> DecodedView {
    DecodedScope {
        method_pool_ix: s.method_pool_ix,
        is_block: s.is_block,
        sender: match s.sender {
            Some(l) => Some((offs[l.sender as int], l.sender_bci, l.pending_stack)),
            None => None,
        },
        receiver: s.receiver,
        slots: s.slots,
        ctx: s.ctx,
    }
}

pub open spec fn as_decoded_site(s: SiteState, offs: Seq<u32>) -> DecodedSiteView {
    DecodedSite {
        scope_off: offs[s.scope as int],
        bci: s.bci,
        kind: s.kind,
        reexecute: s.reexecute,
        stack: s.stack,
    }
}

proof fn lemma_list_len(s: Seq<ValueLoc>)
    ensures
        list_bytes(s).len() >= s.len(),
{
    lemma_locs_len(s);
}

proof fn lemma_locs_len(s: Seq<ValueLoc>)
    ensures
        crate::loc::locs_bytes(s).len() >= s.len(),
    decreases s.len(),
{
    if s.len() > 0 {
        lemma_locs_len(s.drop_last());
    }
}

proof fn lemma_sender_decodes(b: Seq<u8>, p: int, s: ScopeView, offs: Seq<u32>)
    requires
        holds(b, p, sender_bytes(s, offs)),
        b.len() <= u32::MAX,
    ensures
        sender_at(s.sender is Some, b, p) == Some(
            (as_decoded(s, offs).sender, p + sender_bytes(s, offs).len()),
        ),
{
    match s.sender {
        Some(l) => {
            let c0 = uleb_bytes(offs[l.sender as int] as nat);
            let c1 = uleb_bytes(l.sender_bci as nat);
            let c2 = list_bytes(l.pending_stack);
            lemma_holds_split(b, p, c0, c1 + c2);
            law_uleb_round_trip(b, p, offs[l.sender as int] as u64);
            lemma_holds_split(b, p + c0.len(), c1, c2);
            law_uleb_round_trip(b, p + c0.len(), l.sender_bci as u64);
            lemma_list_len(l.pending_stack);
            law_list_round_trip(b, p + c0.len() + c1.len(), l.pending_stack);
        },
        None => {},
    }
}

proof fn lemma_ctx_decodes(b: Seq<u8>, p: int, c: CtxLocView)
    requires
        holds(b, p, ctx_bytes(c)),
        b.len() <= u32::MAX,
    ensures
        ctx_at(ctx_kind(c), b, p) == Some((c, p + ctx_bytes(c).len())),
{
    match c {
        CtxLoc::Absent => {},
        CtxLoc::Materialized(l) => law_loc_round_trip(b, p, l),
        CtxLoc::Elided { temps } => {
            lemma_list_len(temps);
            law_list_round_trip(b, p, temps);
        },
    }
}

proof fn lemma_scope_flags(s: ScopeView)
    ensures
        (scope_flags(s) as int % 2 == 1) == (s.sender is Some),
        ((scope_flags(s) as int / 2) % 2 == 1) == s.is_block,
        (scope_flags(s) as int / 4) % 4 == ctx_kind(s.ctx),
{
}

proof fn lemma_scope_decodes(b: Seq<u8>, p: int, s: ScopeView, offs: Seq<u32>)
    requires
        holds(b, p, scope_bytes(s, offs)),
        b.len() <= u32::MAX,
    ensures
        scope_at(b, p) == Some(as_decoded(s, offs)),
{
    let b0 = seq![scope_flags(s)];
    let b1 = uleb_bytes(s.method_pool_ix as nat);
    let b2 = sender_bytes(s, offs);
    let b3 = loc_bytes(s.receiver);
    let b4 = list_bytes(s.slots);
    let b5 = ctx_bytes(s.ctx);
    let e0 = p + 1;
    let e1 = e0 + b1.len();
    let e2 = e1 + b2.len();
    let e3 = e2 + b3.len();
    let e4 = e3 + b4.len();
    lemma_holds_split(b, p, b0, b1 + (b2 + (b3 + (b4 + b5))));
    lemma_holds_split(b, e0, b1, b2 + (b3 + (b4 + b5)));
    lemma_holds_split(b, e1, b2, b3 + (b4 + b5));
    lemma_holds_split(b, e2, b3, b4 + b5);
    lemma_holds_split(b, e3, b4, b5);
    assert(b[p] == scope_flags(s)) by {
        assert(b.subrange(p, p + 1)[0] == b0[0]);
    }
    lemma_scope_flags(s);
    assert(uleb_at(b, e0) == Some((s.method_pool_ix as u64, e1))) by {
        law_uleb_round_trip(b, e0, s.method_pool_ix as u64);
    }
    assert(sender_at(s.sender is Some, b, e1) == Some((as_decoded(s, offs).sender, e2))) by {
        lemma_sender_decodes(b, e1, s, offs);
    }
    assert(loc_at(b, e2) == Some((s.receiver, e3))) by {
        law_loc_round_trip(b, e2, s.receiver);
    }
    assert(list_at(b, e3) == Some((s.slots, e4))) by {
        lemma_list_len(s.slots);
        law_list_round_trip(b, e3, s.slots);
    }
    lemma_ctx_decodes(b, e4, s.ctx);
    lemma_scope_assembles(b, p, s, offs, e1, e2, e3, e4);
}

/// The parts, each decoded, make the record.
proof fn lemma_scope_assembles(
    b: Seq<u8>,
    p: int,
    s: ScopeView,
    offs: Seq<u32>,
    e1: int,
    e2: int,
    e3: int,
    e4: int,
)
    requires
        0 <= p < b.len(),
        b[p] == scope_flags(s),
        uleb_at(b, p + 1) == Some((s.method_pool_ix as u64, e1)),
        sender_at(s.sender is Some, b, e1) == Some((as_decoded(s, offs).sender, e2)),
        loc_at(b, e2) == Some((s.receiver, e3)),
        list_at(b, e3) == Some((s.slots, e4)),
        ctx_at(ctx_kind(s.ctx), b, e4) == Some((s.ctx, e4 + ctx_bytes(s.ctx).len())),
    ensures
        scope_at(b, p) == Some(as_decoded(s, offs)),
{
    lemma_scope_flags(s);
}

proof fn lemma_site_decodes(b: Seq<u8>, p: int, s: SiteState, offs: Seq<u32>)
    requires
        holds(b, p, site_bytes(s, offs)),
        b.len() <= u32::MAX,
    ensures
        site_at(b, p) == Some(as_decoded_site(s, offs)),
{
    let b0 = uleb_bytes(offs[s.scope as int] as nat);
    let b1 = uleb_bytes(s.bci as nat);
    let b2 = seq![site_flags(s)];
    let b3 = list_bytes(s.stack);
    lemma_holds_split(b, p, b0, b1 + (b2 + b3));
    law_uleb_round_trip(b, p, offs[s.scope as int] as u64);
    let e0 = p + b0.len();
    lemma_holds_split(b, e0, b1, b2 + b3);
    law_uleb_round_trip(b, e0, s.bci as u64);
    let e1 = e0 + b1.len();
    lemma_holds_split(b, e1, b2, b3);
    assert(b.subrange(e1, e1 + 1)[0] == site_flags(s));
    lemma_list_len(s.stack);
    law_list_round_trip(b, e1 + 1, s.stack);
}

/// Later records leave earlier ones alone.
proof fn lemma_scopes_prefix(scopes: Seq<ScopeView>, k: int, n: int)
    requires
        0 <= k <= n,
    ensures
        packed_scopes(scopes, n).1.len() == n,
        packed_scopes(scopes, k).0.is_prefix_of(packed_scopes(scopes, n).0),
        packed_scopes(scopes, k).1.is_prefix_of(packed_scopes(scopes, n).1),
    decreases n,
{
    if k < n {
        lemma_scopes_prefix(scopes, k, n - 1);
    } else if n > 0 {
        lemma_scopes_prefix(scopes, n - 1, n - 1);
    }
}

proof fn lemma_sites_prefix(r: Recording, k: int, n: int)
    requires
        0 <= k <= n,
    ensures
        packed_sites(r, n).1.len() == n,
        packed_sites(r, k).0.is_prefix_of(packed_sites(r, n).0),
        packed_sites(r, k).1.is_prefix_of(packed_sites(r, n).1),
    decreases n,
{
    if k < n {
        lemma_sites_prefix(r, k, n - 1);
    } else if n > 0 {
        lemma_sites_prefix(r, n - 1, n - 1);
    }
}

/// Decoding at the offset of a packed scope gives the recorded scope, its sender by offset.
pub proof fn law_scope_round_trip(r: Recording, k: int)
    requires
        r.wf(),
        packed(r).0.len() <= u32::MAX,
        0 <= k < r.scopes.len(),
    ensures
        ({
            let offs = packed_scopes(r.scopes, r.scopes.len() as int).1;
            &&& offs.len() == r.scopes.len()
            &&& scope_at(packed(r).0, offs[k] as int) == Some(as_decoded(r.scopes[k], offs))
        }),
{
    let n = r.scopes.len() as int;
    let b = packed(r).0;
    let (b0, offs) = packed_scopes(r.scopes, n);
    let (bk, offs_k) = packed_scopes(r.scopes, k);
    let (bk1, offs_k1) = packed_scopes(r.scopes, k + 1);
    lemma_scopes_prefix(r.scopes, k, k + 1);
    lemma_scopes_prefix(r.scopes, k, k);
    lemma_scopes_prefix(r.scopes, k + 1, n);
    lemma_sites_prefix(r, 0, r.sites.len() as int);
    let bytes = scope_bytes(r.scopes[k], offs_k);
    assert(bk1 == bk + bytes);
    assert(offs_k1 == offs_k.push(bk.len() as u32));
    assert(offs[k] == offs_k1[k]);
    assert(b0.is_prefix_of(b));
    assert(bk1.len() <= b0.len() <= b.len());
    assert(b.subrange(bk.len() as int, (bk.len() + bytes.len()) as int) =~= bytes) by {
        assert forall|i: int| 0 <= i < bytes.len() implies b[bk.len() + i] == bytes[i] by {
            assert(b[bk.len() + i] == b0[bk.len() + i]);
            assert(b0[bk.len() + i] == bk1[bk.len() + i]);
        }
    }
    lemma_scope_decodes(b, bk.len() as int, r.scopes[k], offs_k);
    assert(sender_before(r.scopes[k], k));
    if r.scopes[k].sender is Some {
        let j = r.scopes[k].sender->0.sender as int;
        assert(offs[j] == offs_k[j]) by {
            lemma_scopes_prefix(r.scopes, k, n);
        }
    }
}

/// Decoding at the offset of a packed site gives the recorded state, its scope by offset.
pub proof fn law_site_round_trip(r: Recording, k: int)
    requires
        r.wf(),
        packed(r).0.len() <= u32::MAX,
        0 <= k < r.sites.len(),
    ensures
        ({
            let offs = packed_scopes(r.scopes, r.scopes.len() as int).1;
            let descs = packed_sites(r, r.sites.len() as int).1;
            &&& descs.len() == r.sites.len()
            &&& descs[k].code_off == r.sites[k].0
            &&& site_at(packed(r).0, descs[k].site_off as int) == Some(
                as_decoded_site(r.sites[k].1, offs),
            )
        }),
{
    let m = r.sites.len() as int;
    let b = packed(r).0;
    let offs = packed_scopes(r.scopes, r.scopes.len() as int).1;
    let (bk, descs_k) = packed_sites(r, k);
    let (bk1, descs_k1) = packed_sites(r, k + 1);
    lemma_sites_prefix(r, k, k);
    lemma_sites_prefix(r, k + 1, m);
    let descs = packed_sites(r, m).1;
    let bytes = site_bytes(r.sites[k].1, offs);
    assert(bk1 == bk + bytes);
    assert(descs[k] == descs_k1[k]);
    assert(b.subrange(bk.len() as int, (bk.len() + bytes.len()) as int) =~= bytes) by {
        assert forall|i: int| 0 <= i < bytes.len() implies b[bk.len() + i] == bytes[i] by {
            assert(b[bk.len() + i] == bk1[bk.len() + i]);
        }
    }
    lemma_site_decodes(b, bk.len() as int, r.sites[k].1, offs);
}

proof fn lemma_insert_desc(o: Seq<PcDesc>, d: PcDesc)
    requires
        descs_sorted(o),
    ensures
        descs_sorted(insert_desc(o, d)),
        insert_desc(o, d).to_multiset() =~= o.to_multiset().insert(d),
        insert_desc(o, d).len() == o.len() + 1,
        o.len() > 0 ==> insert_desc(o, d).last().code_off >= o.last().code_off,
        insert_desc(o, d).last() == d || (o.len() > 0 && insert_desc(o, d).last() == o.last()),
    decreases o.len(),
{
    broadcast use vstd::seq_lib::group_to_multiset_ensures;

    if o.len() == 0 {
        assert(insert_desc(o, d) =~= o.push(d));
    } else if o.last().code_off <= d.code_off {
    } else {
        let t = o.drop_last();
        lemma_insert_desc(t, d);
        let q = insert_desc(t, d);
        let r = insert_desc(o, d);
        assert(o =~= t.push(o.last()));
        assert forall|j: int, k: int| 0 <= j <= k < r.len() implies (#[trigger] r[j]).code_off <= (
        #[trigger] r[k]).code_off by {
            if k == q.len() {
                assert(q[q.len() - 1] == q.last());
                if j < q.len() {
                    assert(q[j].code_off <= q[q.len() - 1].code_off);
                    if t.len() > 0 {
                        assert(t.last() == o[o.len() - 2]);
                        assert(o[o.len() - 2].code_off <= o[o.len() - 1].code_off);
                    }
                }
            }
        }
    }
}

proof fn lemma_sorted_descs(d: Seq<PcDesc>, n: int)
    requires
        0 <= n <= d.len(),
    ensures
        descs_sorted(sorted_descs(d, n)),
        sorted_descs(d, n).to_multiset() =~= d.take(n).to_multiset(),
    decreases n,
{
    broadcast use vstd::seq_lib::group_to_multiset_ensures;

    if n > 0 {
        lemma_sorted_descs(d, n - 1);
        lemma_insert_desc(sorted_descs(d, n - 1), d[n - 1]);
        assert(d.take(n) =~= d.take(n - 1).push(d[n - 1]));
    } else {
        assert(d.take(0) =~= sorted_descs(d, 0));
    }
}

/// The packed descriptors are those of the sites, by code offset.
pub proof fn law_descs_are_sorted(r: Recording)
    ensures
        descs_sorted(packed(r).1),
        packed(r).1.to_multiset() =~= packed_sites(r, r.sites.len() as int).1.to_multiset(),
{
    let d = packed_sites(r, r.sites.len() as int).1;
    lemma_sorted_descs(d, d.len() as int);
    assert(d.take(d.len() as int) =~= d);
}

/// Every recorded code offset is found, and what is found there is a state recorded for it, as it was
/// recorded.
pub proof fn law_recorded_states_are_found(r: Recording, code_off: u32)
    requires
        r.wf(),
        packed(r).0.len() <= u32::MAX,
    ensures
        off_recorded(packed(r).1, code_off) <==> exists|k: int|
            0 <= k < r.sites.len() && (#[trigger] r.sites[k]).0 == code_off,
        sites_decode(packed(r).0, packed(r).1, code_off),
        forall|s: DecodedSiteView|
            #[trigger] is_state(packed(r).0, packed(r).1, code_off, s) ==> exists|k: int|
                0 <= k < r.sites.len() && (#[trigger] r.sites[k]).0 == code_off && s
                    == as_decoded_site(
                    r.sites[k].1,
                    packed_scopes(r.scopes, r.scopes.len() as int).1,
                ),
{
    broadcast use vstd::seq_lib::group_to_multiset_ensures;

    law_descs_are_sorted(r);
    let d = packed_sites(r, r.sites.len() as int).1;
    let p = packed(r).1;
    let offs = packed_scopes(r.scopes, r.scopes.len() as int).1;
    lemma_sites_prefix(r, r.sites.len() as int, r.sites.len() as int);
    assert forall|x: PcDesc| #[trigger] p.contains(x) <==> d.contains(x) by {
        assert(p.to_multiset().count(x) == d.to_multiset().count(x));
    }
    assert forall|x: PcDesc| #[trigger] p.contains(x) && x.code_off == code_off implies exists|
        k: int,
    |
        0 <= k < r.sites.len() && (#[trigger] r.sites[k]).0 == code_off && site_at(
            packed(r).0,
            x.site_off as int,
        ) == Some(as_decoded_site(r.sites[k].1, offs)) by {
        assert(d.contains(x));
        let k = choose|k: int| 0 <= k < d.len() && d[k] == x;
        law_site_round_trip(r, k);
        assert(r.sites[k].0 == code_off);
    }
    if off_recorded(p, code_off) {
        let k = choose|k: int| 0 <= k < p.len() && (#[trigger] p[k]).code_off == code_off;
        assert(p.contains(p[k]));
    }
    if exists|k: int| 0 <= k < r.sites.len() && (#[trigger] r.sites[k]).0 == code_off {
        let k = choose|k: int| 0 <= k < r.sites.len() && (#[trigger] r.sites[k]).0 == code_off;
        law_site_round_trip(r, k);
        assert(d.contains(d[k]));
        assert(p.contains(d[k]));
        let j = choose|j: int| 0 <= j < p.len() && p[j] == d[k];
        assert(p[j].code_off == code_off);
    }
}

/// A scope and the scopes that it returns to, innermost first.
pub open spec fn ancestors(scopes: Seq<ScopeView>, k: int) -> Seq<int>
    decreases k,
{
    match scopes[k].sender {
        Some(l) => if 0 <= l.sender < k {
            seq![k] + ancestors(scopes, l.sender as int)
        } else {
            seq![k]
        },
        None => seq![k],
    }
}

/// The walk from a packed scope yields the scope and its senders out to the root, and ends there.
pub proof fn law_chain_is_ancestry(r: Recording, k: int)
    requires
        r.wf(),
        packed(r).0.len() <= u32::MAX,
        0 <= k < r.scopes.len(),
    ensures
        ({
            let offs = packed_scopes(r.scopes, r.scopes.len() as int).1;
            let up = ancestors(r.scopes, k);
            &&& chain_ends(packed(r).0, Some(offs[k]))
            &&& chain(packed(r).0, Some(offs[k]), up.len()) == Some(
                up.map_values(|i: int| as_decoded(r.scopes[i], offs)),
            )
        }),
    decreases k,
{
    let b = packed(r).0;
    let offs = packed_scopes(r.scopes, r.scopes.len() as int).1;
    let up = ancestors(r.scopes, k);
    let f = |i: int| as_decoded(r.scopes[i], offs);
    law_scope_round_trip(r, k);
    assert(sender_before(r.scopes[k], k));
    match r.scopes[k].sender {
        Some(l) => {
            law_chain_is_ancestry(r, l.sender as int);
            let rest = ancestors(r.scopes, l.sender as int);
            assert(up == seq![k] + rest);
            assert(up.map_values(f) =~= seq![f(k)] + rest.map_values(f));
            assert((up.len() - 1) as nat == rest.len());
        },
        None => {
            assert(chain(b, None, 0) == Some(Seq::<DecodedView>::empty()));
            assert(up.map_values(f) =~= seq![f(k)] + Seq::<DecodedView>::empty());
            assert((up.len() - 1) as nat == 0);
        },
    }
    assert(chain(b, Some(offs[k]), up.len()) is Some);
}

} // verus!
