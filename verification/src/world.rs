//! What the compiler reads of the running system: well-known objects, classes, methods with their
//! decoded bytecode, and the profile of every send site. A compilation sees one consistent
//! snapshot of all of it.

use vstd::prelude::*;

verus! {

/// A class, by its object word.
#[derive(Clone, Copy, PartialEq, Eq, Debug, Structural)]
pub struct KlassOop(pub u64);

/// A selector, by its (interned) object word.
#[derive(Clone, Copy, PartialEq, Eq, Debug, Structural)]
pub struct SymbolOop(pub u64);

/// A method or block body, as an index into [`VmState::methods`].
#[derive(Clone, Copy, PartialEq, Eq, Debug, Structural)]
pub struct MethodOop(pub usize);

/// One decoded bytecode.
#[derive(Clone, Copy, PartialEq, Eq, Debug)]
pub enum Instr {
    PushSelf,
    PushNil,
    PushTrue,
    PushFalse,
    PushSmi(i32),
    PushLiteral(u16),
    PushTemp(u16),
    PushInstvar(u16),
    PushGlobal(u16),
    PushCtxTemp { depth: u8, idx: u16 },
    PushClosure { lit: u16, ncopied: u8 },
    StoreTemp(u16),
    StoreTempPop(u16),
    StoreInstvarPop(u16),
    StoreGlobalPop(u16),
    StoreCtxTempPop { depth: u8, idx: u16 },
    Dup,
    Pop,
    Send { ic: u16, super_: bool },
    JumpFwd(u16),
    JumpBack(u16),
    BrTrueFwd(u16),
    BrFalseFwd(u16),
    ReturnTos,
    ReturnSelf,
    BlockReturnTos,
    NlrTos,
}

pub type BlockIndex = usize;

/// How a bytecode block ends.
#[derive(Clone, Copy, PartialEq, Eq, Debug)]
pub enum Terminator {
    Fallthrough(BlockIndex),
    Jump { target: BlockIndex, is_backward: bool },
    Branch { if_true: BlockIndex, if_false: BlockIndex },
    Return,
}

/// A maximal run of bytecodes with one entry.
#[derive(Clone, Copy, PartialEq, Eq, Debug)]
pub struct CfgBlock {
    pub bci_start: usize,
    pub bci_end: usize,
    pub terminator: Terminator,
}

/// The control flow of a bytecode body, blocks in increasing bytecode order.
#[derive(Debug)]
pub struct Cfg {
    pub blocks: Vec<CfgBlock>,
}

/// One literal: the object word and what the compiler may know of the object behind it.
#[derive(Clone, Copy, PartialEq, Eq, Debug)]
pub struct Literal {
    pub raw: u64,
    /// The class that is the current value of the global, when the literal is a global's association.
    pub global_klass: Option<KlassOop>,
    /// The block body, when the literal is one.
    pub method: Option<MethodOop>,
}

/// One class seen at a send site, with the method it resolved to.
#[derive(Clone, Copy, PartialEq, Eq, Debug)]
pub struct PolyCase {
    pub klass: KlassOop,
    pub method: MethodOop,
}

/// The receiver classes that the interpreter saw at a send site.
#[derive(Debug)]
pub enum SiteFeedback<L = Vec<PolyCase>> {
    Untaken,
    Mono { klass: KlassOop, method: MethodOop },
    Poly { cases: L },
    Mega,
}

pub type FeedbackView = SiteFeedback<Seq<PolyCase>>;

impl View for SiteFeedback {
    type V = FeedbackView;

    open spec fn view(&self) -> FeedbackView {
        match *self {
            SiteFeedback::Untaken => SiteFeedback::Untaken,
            SiteFeedback::Mono { klass, method } => SiteFeedback::Mono { klass, method },
            SiteFeedback::Poly { cases } => SiteFeedback::Poly { cases: cases@ },
            SiteFeedback::Mega => SiteFeedback::Mega,
        }
    }
}

impl SiteFeedback {
    /// A copy with the same contents.
    pub fn copy(&self) -> (r: SiteFeedback)
        ensures
            r@ == self@,
    {
        match self {
            SiteFeedback::Untaken => SiteFeedback::Untaken,
            SiteFeedback::Mono { klass, method } => SiteFeedback::Mono {
                klass: *klass,
                method: *method,
            },
            SiteFeedback::Poly { cases } => {
                let mut c: Vec<PolyCase> = Vec::new();
                for k in 0..cases.len()
                    invariant
                        c@ == cases@.take(k as int),
                {
                    c.push(cases[k]);
                    assert(c@ =~= cases@.take(k + 1));
                }
                assert(c@ =~= cases@);
                SiteFeedback::Poly { cases: c }
            },
            SiteFeedback::Mega => SiteFeedback::Mega,
        }
    }
}

/// The receiver test that a profiled inline needs.
#[derive(Clone, Copy, PartialEq, Eq, Debug)]
pub enum GuardKind {
    Unguarded,
    SmiTest,
    KlassTest,
}

/// What the profile, held against the inlining budget, asks for at a send site.
#[derive(Clone, Copy, PartialEq, Eq, Debug)]
pub enum InlineDecision {
    Trap,
    Call,
    Inline { callee: MethodOop, guard: GuardKind },
    DominantWithSlowPath { case_klass: KlassOop, case_method: MethodOop, guard: GuardKind },
}

/// One send site: the selector, the inline cache's state and the profile read from it.
#[derive(Debug)]
pub struct InterpreterIc {
    pub selector: SymbolOop,
    pub argc: u8,
    /// The guard word: a class, or `nil` while the site has never been taken.
    pub guard: u64,
    pub guard_is_klass: bool,
    /// The method behind a monomorphic target.
    pub target: Option<MethodOop>,
    /// The class words of a polymorphic cache.
    pub poly_klasses: Option<Vec<u64>>,
    pub feedback: SiteFeedback,
    pub decision: InlineDecision,
}

/// What is known of the closures that a method creates: which escape, which are invoked where.
#[derive(Debug)]
pub struct ClosureEscape {
    pub all_elidable: bool,
    /// `push_closure` positions whose closure must be allocated.
    pub escaping: Vec<usize>,
    /// (send position, `push_closure` position): the send invokes that closure.
    pub value_sends: Vec<(usize, usize)>,
    /// Sends that pass a closure as an argument.
    pub blockarg_sends: Vec<BlockArgSend>,
}

/// A send that passes an elided closure into a callee that only invokes it.
#[derive(Clone, Copy, PartialEq, Eq, Debug)]
pub struct BlockArgSend {
    pub send_bci: usize,
    pub site: usize,
    pub arg_ix: usize,
    pub devirt: bool,
}

/// A method or block body.
#[derive(Debug)]
pub struct Method {
    /// The method object's word.
    pub oop: u64,
    pub holder: Option<KlassOop>,
    pub argc: u8,
    pub ntemps: u8,
    pub nctx: u16,
    pub is_block: bool,
    pub has_ctx: bool,
    pub captures_ctx: bool,
    pub primitive: i64,
    /// By bytecode index: the instruction that starts there and where the next one starts.
    pub code: Vec<Option<(Instr, usize)>>,
    pub literals: Vec<Literal>,
    pub ics: Vec<InterpreterIc>,
    pub cfg: Cfg,
    pub inline_cost: u32,
    pub is_leaf: bool,
    /// Straight-line body that a splice with sends can take.
    pub eligible_nonleaf: bool,
    /// Body whose whole control flow a splice can take.
    pub eligible_cfg: bool,
    pub escape: ClosureEscape,
}

/// What is known of a class.
#[derive(Clone, Copy, PartialEq, Eq, Debug)]
pub struct KlassInfo {
    pub klass: KlassOop,
    pub superclass: Option<KlassOop>,
    /// Instances consist of named slots only.
    pub slots_format: bool,
    pub non_indexable_size: usize,
    /// The one instance, when this is a metaclass.
    pub sole_instance: Option<KlassOop>,
}

/// An answer of method lookup.
#[derive(Clone, Copy, PartialEq, Eq, Debug)]
pub struct Lookup {
    pub klass: KlassOop,
    pub selector: SymbolOop,
    pub method: MethodOop,
}

/// A boxed double, with the bits of its value.
#[derive(Clone, Copy, PartialEq, Eq, Debug)]
pub struct BoxedDouble {
    pub raw: u64,
    pub bits: u64,
}

/// The well-known objects.
#[derive(Clone, Copy, PartialEq, Eq, Debug)]
pub struct Universe {
    pub nil_obj: u64,
    pub true_obj: u64,
    pub false_obj: u64,
    pub smi_klass: KlassOop,
    pub double_klass: KlassOop,
    pub array_klass: KlassOop,
    pub float64x2_klass: KlassOop,
    pub float32x4_klass: KlassOop,
    pub int32x4_klass: KlassOop,
    pub closure_klass: KlassOop,
    pub context_klass: KlassOop,
    pub true_klass: KlassOop,
    pub false_klass: KlassOop,
    /// The selectors `==`, `~~` and `not`.
    pub identity_sel: SymbolOop,
    pub not_identity_sel: SymbolOop,
    pub not_sel: SymbolOop,
    /// Header word of a fresh object with named slots, and of a fresh boxed double.
    pub mark_slots: u64,
    pub mark_double: u64,
    /// The small integer that stands for a home activation that is known to be gone.
    pub home_dead_sentinel: i64,
}

/// Bounds on how much code splicing may add.
#[derive(Clone, Copy, PartialEq, Eq, Debug)]
pub struct InlineBudget {
    pub per_call_cost: u32,
    pub total_bytes: u32,
}

/// The snapshot.
#[derive(Debug)]
pub struct VmState {
    pub universe: Universe,
    pub methods: Vec<Method>,
    pub klasses: Vec<KlassInfo>,
    pub lookups: Vec<Lookup>,
    pub doubles: Vec<BoxedDouble>,
    pub budget: InlineBudget,
    /// Lets never-taken sends in spliced bodies become traps too.
    pub cold_splice_traps: bool,
    /// Selects the float promotion that follows values through spliced bodies.
    pub splice_promote: bool,
}

impl ClosureEscape {
    pub open spec fn escapes(self, bci: usize) -> bool {
        self.escaping@.contains(bci)
    }

    /// Must the closure created at `bci` be allocated?
    pub fn is_escaping_site(&self, bci: usize) -> (r: bool)
        ensures
            r == self.escapes(bci),
    {
        for k in 0..self.escaping.len()
            invariant
                forall|j: int| 0 <= j < k ==> self.escaping@[j] != bci,
        {
            if self.escaping[k] == bci {
                return true;
            }
        }
        false
    }

    pub open spec fn value_target(self, bci: usize) -> Option<usize> {
        first_value_send(self.value_sends@, bci)
    }

    /// The closure that the send at `bci` invokes.
    pub fn value_send_target(&self, bci: usize) -> (r: Option<usize>)
        ensures
            r == self.value_target(bci),
    {
        let v = &self.value_sends;
        assert(v@.skip(0) =~= v@);
        for k in 0..v.len()
            invariant
                v == self.value_sends,
                first_value_send(v@, bci) == first_value_send(v@.skip(k as int), bci),
        {
            assert(v@.skip(k as int).skip(1) =~= v@.skip(k + 1));
            if v[k].0 == bci {
                return Some(v[k].1);
            }
        }
        None
    }

    pub open spec fn blockarg_target(self, bci: usize) -> Option<BlockArgSend> {
        first_blockarg_send(self.blockarg_sends@, bci)
    }

    /// The closure that the send at `bci` passes along.
    pub fn blockarg_send_target(&self, bci: usize) -> (r: Option<BlockArgSend>)
        ensures
            r == self.blockarg_target(bci),
    {
        let v = &self.blockarg_sends;
        assert(v@.skip(0) =~= v@);
        for k in 0..v.len()
            invariant
                v == self.blockarg_sends,
                first_blockarg_send(v@, bci) == first_blockarg_send(v@.skip(k as int), bci),
        {
            assert(v@.skip(k as int).skip(1) =~= v@.skip(k + 1));
            if v[k].send_bci == bci {
                return Some(v[k]);
            }
        }
        None
    }
}

pub open spec fn first_value_send(v: Seq<(usize, usize)>, bci: usize) -> Option<usize>
    decreases v.len(),
{
    if v.len() == 0 {
        None
    } else if v[0].0 == bci {
        Some(v[0].1)
    } else {
        first_value_send(v.skip(1), bci)
    }
}

pub open spec fn first_blockarg_send(v: Seq<BlockArgSend>, bci: usize) -> Option<BlockArgSend>
    decreases v.len(),
{
    if v.len() == 0 {
        None
    } else if v[0].send_bci == bci {
        Some(v[0])
    } else {
        first_blockarg_send(v.skip(1), bci)
    }
}

impl Terminator {
    /// Every target is one of `n` blocks.
    pub open spec fn wf(self, n: int) -> bool {
        match self {
            Terminator::Fallthrough(t) => t < n,
            Terminator::Jump { target, .. } => target < n,
            Terminator::Branch { if_true, if_false } => if_true < n && if_false < n,
            Terminator::Return => true,
        }
    }
}

impl InlineDecision {
    pub open spec fn wf(self, n: int) -> bool {
        match self {
            InlineDecision::Inline { callee, .. } => callee.0 < n,
            InlineDecision::DominantWithSlowPath { case_method, .. } => case_method.0 < n,
            _ => true,
        }
    }
}

pub open spec fn opt_wf(m: Option<MethodOop>, n: int) -> bool {
    match m {
        Some(h) => h.0 < n,
        None => true,
    }
}

impl InterpreterIc {
    /// Every method it names is one of `n` methods.
    pub open spec fn wf(self, n: int) -> bool {
        &&& opt_wf(self.target, n)
        &&& self.decision.wf(n)
        &&& match self.feedback {
            SiteFeedback::Mono { method, .. } => method.0 < n,
            _ => true,
        }
    }
}

impl Method {
    pub open spec fn nslots(self) -> int {
        self.argc as int + self.ntemps as int
    }

    /// Operands name literals, send sites and slots that the method has.
    pub open spec fn instr_wf(self, i: Instr) -> bool {
        match i {
            Instr::PushLiteral(x) => x < self.literals@.len(),
            Instr::PushGlobal(x) => x < self.literals@.len(),
            Instr::StoreGlobalPop(x) => x < self.literals@.len(),
            Instr::PushClosure { lit, .. } => lit < self.literals@.len(),
            Instr::PushTemp(x) => x < self.nslots(),
            Instr::StoreTemp(x) => x < self.nslots(),
            Instr::StoreTempPop(x) => x < self.nslots(),
            Instr::Send { ic, .. } => ic < self.ics@.len(),
            _ => true,
        }
    }

    /// An instruction starts at `bci`, or the body ends there.
    pub open spec fn boundary(self, bci: int) -> bool {
        &&& 0 <= bci <= self.code@.len()
        &&& bci < self.code@.len() ==> self.code@[bci] is Some
    }

    pub open spec fn instr_at(self, bci: int) -> Instr {
        (self.code@[bci]->0).0
    }

    pub open spec fn next_at(self, bci: int) -> int {
        (self.code@[bci]->0).1 as int
    }

    /// The instructions tile the body.
    pub open spec fn code_wf(self) -> bool {
        &&& self.boundary(0)
        &&& forall|i: int|
            #![trigger self.code@[i]]
            0 <= i < self.code@.len() && self.code@[i] is Some ==> {
                &&& i < self.next_at(i)
                &&& self.boundary(self.next_at(i))
                &&& self.instr_wf(self.instr_at(i))
            }
    }

    /// The blocks start at instructions and lead to blocks.
    pub open spec fn cfg_wf(self, cfg: Cfg) -> bool {
        forall|b: int|
            #![trigger cfg.blocks@[b]]
            0 <= b < cfg.blocks@.len() ==> {
                &&& self.boundary(cfg.blocks@[b].bci_start as int)
                &&& cfg.blocks@[b].bci_end <= self.code@.len()
                &&& cfg.blocks@[b].terminator.wf(cfg.blocks@.len() as int)
            }
    }

    /// A body in which every reference leads somewhere; `n` is the number of methods.
    pub open spec fn wf(self, n: int) -> bool {
        &&& self.code_wf()
        &&& self.cfg_wf(self.cfg)
        &&& forall|i: int|
            #![trigger self.literals@[i]]
            0 <= i < self.literals@.len() ==> opt_wf(self.literals@[i].method, n)
        &&& forall|i: int|
            #![trigger self.ics@[i]]
            0 <= i < self.ics@.len() ==> self.ics@[i].wf(n)
    }

    /// The instruction at `bci` and where the next one starts.
    pub fn decode_at(&self, bci: usize) -> (r: (Instr, usize))
        requires
            self.code_wf(),
            self.boundary(bci as int),
            bci < self.code@.len(),
        ensures
            r.0 == self.instr_at(bci as int),
            r.1 == self.next_at(bci as int),
            bci < r.1 <= self.code@.len(),
            self.boundary(r.1 as int),
            self.instr_wf(r.0),
    {
        match self.code[bci] {
            Some(p) => p,
            None => (Instr::Pop, bci),
        }
    }
}

impl VmState {
    pub open spec fn has(self, m: MethodOop) -> bool {
        m.0 < self.methods@.len()
    }

    pub open spec fn m(self, m: MethodOop) -> Method {
        self.methods@[m.0 as int]
    }

    /// No reference dangles.
    pub open spec fn wf(self) -> bool {
        &&& forall|i: int|
            #![trigger self.methods@[i]]
            0 <= i < self.methods@.len() ==> self.methods@[i].wf(self.methods@.len() as int)
        &&& forall|i: int|
            #![trigger self.lookups@[i]]
            0 <= i < self.lookups@.len() ==> self.lookups@[i].method.0 < self.methods@.len()
    }

    pub fn method(&self, m: MethodOop) -> (r: &Method)
        requires
            self.wf(),
            self.has(m),
        ensures
            *r == self.m(m),
            r.wf(self.methods@.len() as int),
    {
        &self.methods[m.0]
    }

    pub open spec fn lookup(self, k: KlassOop, sel: SymbolOop) -> Option<MethodOop> {
        first_lookup(self.lookups@, k, sel)
    }

    /// The method that `sel` resolves to in class `k`.
    pub fn resolve_method(&self, k: KlassOop, sel: SymbolOop) -> (r: Option<MethodOop>)
        requires
            self.wf(),
        ensures
            r == self.lookup(k, sel),
            r is Some ==> self.has(r->0),
    {
        let v = &self.lookups;
        assert(v@.skip(0) =~= v@);
        for i in 0..v.len()
            invariant
                v == self.lookups,
                self.wf(),
                first_lookup(v@, k, sel) == first_lookup(v@.skip(i as int), k, sel),
        {
            assert(v@.skip(i as int).skip(1) =~= v@.skip(i + 1));
            if v[i].klass == k && v[i].selector == sel {
                return Some(v[i].method);
            }
        }
        None
    }

    pub open spec fn info(self, k: KlassOop) -> Option<KlassInfo> {
        first_info(self.klasses@, k)
    }

    /// What is known of class `k`.
    pub fn klass_info(&self, k: KlassOop) -> (r: Option<KlassInfo>)
        ensures
            r == self.info(k),
    {
        let v = &self.klasses;
        assert(v@.skip(0) =~= v@);
        for i in 0..v.len()
            invariant
                v == self.klasses,
                first_info(v@, k) == first_info(v@.skip(i as int), k),
        {
            assert(v@.skip(i as int).skip(1) =~= v@.skip(i + 1));
            if v[i].klass == k {
                return Some(v[i]);
            }
        }
        None
    }

    pub open spec fn double(self, raw: u64) -> Option<u64> {
        first_double(self.doubles@, raw)
    }

    /// The bits of the boxed double at `raw`, if there is one.
    pub fn double_bits(&self, raw: u64) -> (r: Option<u64>)
        ensures
            r == self.double(raw),
    {
        let v = &self.doubles;
        assert(v@.skip(0) =~= v@);
        for i in 0..v.len()
            invariant
                v == self.doubles,
                first_double(v@, raw) == first_double(v@.skip(i as int), raw),
        {
            assert(v@.skip(i as int).skip(1) =~= v@.skip(i + 1));
            if v[i].raw == raw {
                return Some(v[i].bits);
            }
        }
        None
    }
}

pub open spec fn first_lookup(v: Seq<Lookup>, k: KlassOop, sel: SymbolOop) -> Option<MethodOop>
    decreases v.len(),
{
    if v.len() == 0 {
        None
    } else if v[0].klass == k && v[0].selector == sel {
        Some(v[0].method)
    } else {
        first_lookup(v.skip(1), k, sel)
    }
}

pub open spec fn first_info(v: Seq<KlassInfo>, k: KlassOop) -> Option<KlassInfo>
    decreases v.len(),
{
    if v.len() == 0 {
        None
    } else if v[0].klass == k {
        Some(v[0])
    } else {
        first_info(v.skip(1), k)
    }
}

pub open spec fn first_double(v: Seq<BoxedDouble>, raw: u64) -> Option<u64>
    decreases v.len(),
{
    if v.len() == 0 {
        None
    } else if v[0].raw == raw {
        Some(v[0].bits)
    } else {
        first_double(v.skip(1), raw)
    }
}

/// Bytes before an object's first body word.
pub const BODY_OFFSET: i32 = 16;

pub const HEADER_WORDS: usize = 2;

pub const WORD_SIZE: usize = 8;

/// Byte offset of an association's value word.
pub const ASSOC_VALUE_OFFSET: i32 = 24;

/// The primitive that allocates an instance without initializing it.
pub const PRIM_BASIC_NEW: i64 = 23;

} // verus!
