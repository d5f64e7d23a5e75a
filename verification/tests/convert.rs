use macvm::convert::convert;
use macvm::depths::instr_stack_delta;
use macvm::ir::{BlockId, CmpOp, FArithOp, GuardShape, Ir, IrMethod, PoolLit, SmiOp, VReg};
use macvm::regalloc::regalloc;
use macvm::scopes::SafepointKind;
use macvm::world::{
    Cfg, CfgBlock, ClosureEscape, GuardKind, InlineBudget, InlineDecision, Instr, InterpreterIc,
    KlassInfo, KlassOop, Literal, Lookup, Method, MethodOop, PolyCase, SiteFeedback, SymbolOop,
    Terminator, Universe, VmState, BODY_OFFSET, HEADER_WORDS,
};

const OBJECT_KLASS: KlassOop = KlassOop(0x2001);

fn test_vm() -> VmState {
    VmState {
        universe: Universe {
            nil_obj: 0x1001,
            true_obj: 0x1011,
            false_obj: 0x1021,
            smi_klass: KlassOop(0x1101),
            double_klass: KlassOop(0x1111),
            array_klass: KlassOop(0x1121),
            float64x2_klass: KlassOop(0x1131),
            float32x4_klass: KlassOop(0x1141),
            int32x4_klass: KlassOop(0x1151),
            closure_klass: KlassOop(0x1161),
            context_klass: KlassOop(0x1171),
            true_klass: KlassOop(0x1181),
            false_klass: KlassOop(0x1191),
            identity_sel: SymbolOop(0x1201),
            not_identity_sel: SymbolOop(0x1211),
            not_sel: SymbolOop(0x1221),
            mark_slots: 0x1301,
            mark_double: 0x1311,
            home_dead_sentinel: -1,
        },
        methods: Vec::new(),
        klasses: Vec::new(),
        lookups: Vec::new(),
        doubles: Vec::new(),
        budget: InlineBudget { per_call_cost: 60, total_bytes: 2000 },
        cold_splice_traps: false,
        splice_promote: false,
    }
}

fn selector(name: &[u8]) -> SymbolOop {
    let mut raw = 0x4000u64;
    for b in name {
        raw = raw * 31 + *b as u64;
    }
    SymbolOop(raw)
}

#[derive(Clone, Copy)]
struct Label(usize);

/// Assembles one bytecode body.
struct Builder {
    instrs: Vec<(usize, Instr, Option<Label>)>,
    next: usize,
    labels: Vec<usize>,
    ics: Vec<InterpreterIc>,
}

impl Builder {
    fn new() -> Builder {
        Builder { instrs: Vec::new(), next: 0, labels: Vec::new(), ics: Vec::new() }
    }

    fn emit(&mut self, i: Instr, len: usize, to: Option<Label>) {
        self.instrs.push((self.next, i, to));
        self.next += len;
    }

    fn push_self(&mut self) {
        self.emit(Instr::PushSelf, 1, None);
    }

    fn push_true(&mut self) {
        self.emit(Instr::PushTrue, 1, None);
    }

    fn push_temp(&mut self, t: u16) {
        self.emit(Instr::PushTemp(t), 2, None);
    }

    fn push_instvar(&mut self, i: u16) {
        self.emit(Instr::PushInstvar(i), 2, None);
    }

    fn push_smi_i8(&mut self, v: i8) {
        self.emit(Instr::PushSmi(v as i32), 2, None);
    }

    fn store_temp_pop(&mut self, t: u16) {
        self.emit(Instr::StoreTempPop(t), 2, None);
    }

    fn site(&mut self, vm: &VmState, sel: SymbolOop, argc: u8, super_: bool) {
        let ic = self.ics.len() as u16;
        self.ics.push(InterpreterIc {
            selector: sel,
            argc,
            guard: vm.universe.nil_obj,
            guard_is_klass: false,
            target: None,
            poly_klasses: None,
            feedback: SiteFeedback::Untaken,
            decision: InlineDecision::Trap,
        });
        self.emit(Instr::Send { ic, super_ }, 2, None);
    }

    fn send(&mut self, vm: &VmState, sel: SymbolOop, argc: u8) {
        self.site(vm, sel, argc, false);
    }

    fn send_super(&mut self, vm: &VmState, sel: SymbolOop, argc: u8) {
        self.site(vm, sel, argc, true);
    }

    fn ret_tos(&mut self) {
        self.emit(Instr::ReturnTos, 1, None);
    }

    fn ret_self(&mut self) {
        self.emit(Instr::ReturnSelf, 1, None);
    }

    fn new_label(&mut self) -> Label {
        self.labels.push(usize::MAX);
        Label(self.labels.len() - 1)
    }

    fn bind(&mut self, l: Label) {
        self.labels[l.0] = self.next;
    }

    fn jump_fwd(&mut self, l: Label) {
        self.emit(Instr::JumpFwd(0), 3, Some(l));
    }

    fn jump_back(&mut self, l: Label) {
        self.emit(Instr::JumpBack(0), 3, Some(l));
    }

    fn op(&mut self, i: Instr) {
        self.emit(i, 2, None);
    }

    fn br_false_fwd(&mut self, l: Label) {
        self.emit(Instr::BrFalseFwd(0), 3, Some(l));
    }

    fn cfg(&self) -> Cfg {
        let mut leaders = vec![0usize];
        for (k, (_, i, to)) in self.instrs.iter().enumerate() {
            if let Some(l) = to {
                leaders.push(self.labels[l.0]);
            }
            let ends = to.is_some()
                || matches!(
                    i,
                    Instr::ReturnTos | Instr::ReturnSelf | Instr::BlockReturnTos | Instr::NlrTos
                );
            if ends && k + 1 < self.instrs.len() {
                leaders.push(self.instrs[k + 1].0);
            }
        }
        leaders.sort();
        leaders.dedup();
        let index = |bci: usize| leaders.iter().position(|&l| l == bci).unwrap();
        let mut blocks = Vec::new();
        for (b, &start) in leaders.iter().enumerate() {
            let end = if b + 1 < leaders.len() { leaders[b + 1] } else { self.next };
            let (_, last, to) =
                self.instrs.iter().filter(|(at, _, _)| *at >= start && *at < end).last().unwrap();
            let target = to.map(|l| index(self.labels[l.0]));
            let terminator = match last {
                Instr::JumpFwd(_) => {
                    Terminator::Jump { target: target.unwrap(), is_backward: false }
                }
                Instr::JumpBack(_) => {
                    Terminator::Jump { target: target.unwrap(), is_backward: true }
                }
                Instr::BrFalseFwd(_) => {
                    Terminator::Branch { if_true: b + 1, if_false: target.unwrap() }
                }
                Instr::ReturnTos
                | Instr::ReturnSelf
                | Instr::BlockReturnTos
                | Instr::NlrTos => Terminator::Return,
                _ => Terminator::Fallthrough(b + 1),
            };
            blocks.push(CfgBlock { bci_start: start, bci_end: end, terminator });
        }
        Cfg { blocks }
    }

    fn finish(self, vm: &mut VmState, argc: u8, ntemps: u8) -> MethodOop {
        let cfg = self.cfg();
        let mut code: Vec<Option<(Instr, usize)>> = vec![None; self.next];
        for (k, (at, i, to)) in self.instrs.iter().enumerate() {
            let after = if k + 1 < self.instrs.len() { self.instrs[k + 1].0 } else { self.next };
            let i = match (i, to) {
                (Instr::JumpFwd(_), Some(l)) => Instr::JumpFwd((self.labels[l.0] - after) as u16),
                (Instr::BrFalseFwd(_), Some(l)) => {
                    Instr::BrFalseFwd((self.labels[l.0] - after) as u16)
                }
                _ => *i,
            };
            code[*at] = Some((i, after));
        }
        let id = MethodOop(vm.methods.len());
        vm.methods.push(Method {
            oop: 0x10_0000 + 0x10 * id.0 as u64 + 1,
            holder: None,
            argc,
            ntemps,
            nctx: 0,
            is_block: false,
            has_ctx: false,
            captures_ctx: false,
            primitive: 0,
            code,
            literals: Vec::new(),
            ics: self.ics,
            cfg,
            inline_cost: 10,
            is_leaf: false,
            eligible_nonleaf: false,
            eligible_cfg: false,
            escape: ClosureEscape {
                all_elidable: true,
                escaping: Vec::new(),
                value_sends: Vec::new(),
                blockarg_sends: Vec::new(),
            },
        });
        id
    }
}

fn primitive_stub(vm: &mut VmState, prim_id: i64) -> MethodOop {
    let mut b = Builder::new();
    b.ret_self();
    let m = b.finish(vm, 1, 0);
    vm.methods[m.0].primitive = prim_id;
    m
}

/// Makes a send site monomorphic, with the inlining decision that its profile gives.
fn set_mono(vm: &mut VmState, m: MethodOop, ic: usize, klass: KlassOop, target: MethodOop) {
    let guard = if klass == vm.universe.smi_klass { GuardKind::SmiTest } else { GuardKind::KlassTest };
    let ic = &mut vm.methods[m.0].ics[ic];
    ic.guard = klass.0;
    ic.guard_is_klass = true;
    ic.target = Some(target);
    ic.feedback = SiteFeedback::Mono { klass, method: target };
    ic.decision = InlineDecision::Inline { callee: target, guard };
}

fn decode(vm: &VmState, m: MethodOop) -> Cfg {
    Cfg { blocks: vm.methods[m.0].cfg.blocks.clone() }
}

#[test]
fn convert_annotates_site_feedback() {
    let mut vm = test_vm();
    let foo_sel = selector(b"foo");
    let inner_sel = selector(b"inner");
    let target = {
        let mut b = Builder::new();
        b.push_self();
        b.send_super(&vm, inner_sel, 0);
        b.ret_tos();
        b.finish(&mut vm, 0, 0)
    };

    let mut b = Builder::new();
    b.push_self();
    b.send(&vm, foo_sel, 0);
    b.ret_tos();
    let method = b.finish(&mut vm, 0, 0);

    {
        let cfg = decode(&vm, method);
        let ir = convert(&vm, vm.universe.smi_klass, method, &cfg, None);
        assert_eq!(
            ir.site_feedback.len(),
            ir.call_sites.len(),
            "one site_feedback per real call site (both empty for a trapped-only method)"
        );
        assert_eq!(
            ir.call_sites.len(),
            0,
            "an Untaken send lowers to a trap, not a CallSend -> no call_site"
        );
        let trap_sites: usize = ir
            .blocks
            .iter()
            .flat_map(|blk| blk.deopt_sites.iter())
            .filter(|(_, raw)| matches!(raw.kind, SafepointKind::UncommonTrap))
            .count();
        assert_eq!(
            trap_sites, 1,
            "the one Untaken `foo` send became exactly one uncommon-trap deopt site"
        );
    }

    let klass = OBJECT_KLASS;
    set_mono(&mut vm, method, 0, klass, target);
    let cfg = decode(&vm, method);
    let ir = convert(&vm, vm.universe.smi_klass, method, &cfg, None);
    assert_eq!(ir.call_sites.len(), 1, "a warm mono send is a real CallSend");
    match &ir.site_feedback[0] {
        SiteFeedback::Mono { klass: k, method: m } => {
            assert_eq!(*k, klass);
            assert_eq!(*m, target);
        }
        other => panic!("expected Mono, got {other:?}"),
    }
}

#[test]
fn convert_inlines_leaf_accessor() {
    let mut vm = test_vm();
    let recv_klass = KlassOop(0x3001);
    vm.klasses.push(KlassInfo {
        klass: recv_klass,
        superclass: Some(OBJECT_KLASS),
        slots_format: true,
        non_indexable_size: HEADER_WORDS + 1,
        sole_instance: None,
    });
    let val_sel = selector(b"val");
    let val = {
        let mut vb = Builder::new();
        vb.push_instvar(0);
        vb.ret_tos();
        vb.finish(&mut vm, 0, 0)
    };
    vm.methods[val.0].is_leaf = true;

    let mut b = Builder::new();
    b.push_self();
    b.send(&vm, val_sel, 0);
    b.ret_tos();
    let method = b.finish(&mut vm, 0, 0);
    set_mono(&mut vm, method, 0, recv_klass, val);

    let cfg = decode(&vm, method);
    let ir = convert(&vm, vm.universe.smi_klass, method, &cfg, None);

    assert_eq!(ir.call_sites.len(), 0, "inlined leaf -> no CallSend");
    assert_eq!(ir.site_feedback.len(), 0);

    let (mut guards, mut loads, mut calls) = (0, 0, 0);
    for blk in &ir.blocks {
        for op in &blk.code {
            match op {
                Ir::GuardKlass { obj, kind, .. } => {
                    guards += 1;
                    assert_eq!(*obj, VReg(0), "guard tests the receiver (self)");
                    assert_eq!(*kind, GuardShape::KlassTest, "non-smi klass -> KlassTest");
                }
                Ir::LoadField { obj, byte_off, .. } => {
                    if *obj == VReg(0) && *byte_off == BODY_OFFSET as i32 {
                        loads += 1;
                    }
                }
                Ir::CallSend { .. } => calls += 1,
                _ => {}
            }
        }
    }
    assert_eq!(guards, 1, "one receiver-klass guard");
    assert_eq!(loads, 1, "one inlined instvar0 load off the receiver");
    assert_eq!(calls, 0, "no CallSend - the send was inlined");

    assert_eq!(ir.inline_deps.len(), 1);
    assert_eq!(ir.inline_deps[0].0, recv_klass);
    assert_eq!(ir.inline_deps[0].1, val_sel);

    let trap_sites: usize = ir
        .blocks
        .iter()
        .flat_map(|blk| blk.deopt_sites.iter())
        .filter(|(_, raw)| matches!(raw.kind, SafepointKind::UncommonTrap) && raw.reexecute)
        .count();
    assert_eq!(trap_sites, 1, "the guard's cold path is one reexecute trap");
}

#[test]
fn convert_inlines_self_and_arg_smi_guard() {
    let mut vm = test_vm();
    let id_sel = selector(b"idSelf");
    let id_method = {
        let mut vb = Builder::new();
        vb.ret_self();
        vb.finish(&mut vm, 0, 0)
    };
    vm.methods[id_method.0].is_leaf = true;
    let mut b = Builder::new();
    b.push_self();
    b.send(&vm, id_sel, 0);
    b.ret_tos();
    let method = b.finish(&mut vm, 0, 0);
    let smi_klass = vm.universe.smi_klass;
    set_mono(&mut vm, method, 0, smi_klass, id_method);

    let cfg = decode(&vm, method);
    let ir = convert(&vm, vm.universe.smi_klass, method, &cfg, None);
    assert_eq!(ir.call_sites.len(), 0, "^self inlined, no CallSend");
    let smi_guards = ir
        .blocks
        .iter()
        .flat_map(|b| b.code.iter())
        .filter(|op| matches!(op, Ir::GuardKlass { kind: GuardShape::SmiTest, .. }))
        .count();
    assert_eq!(smi_guards, 1, "a smi receiver klass -> one SmiTest guard");
    assert_eq!(ir.inline_deps.len(), 1);
    assert_eq!(ir.inline_deps[0].1, id_sel);
}

#[test]
fn smi_send_inlined_mono() {
    let mut vm = test_vm();
    let plus_sel = selector(b"+");
    let plus_method = primitive_stub(&mut vm, 1);

    let mut b = Builder::new();
    b.push_self();
    b.push_temp(0);
    b.send(&vm, plus_sel, 1);
    b.ret_tos();
    let method = b.finish(&mut vm, 1, 0);
    let smi_klass = vm.universe.smi_klass;
    set_mono(&mut vm, method, 0, smi_klass, plus_method);

    let cfg = decode(&vm, method);
    let ir = convert(&vm, vm.universe.smi_klass, method, &cfg, None);

    let fail = ir.blocks[0]
        .code
        .iter()
        .find_map(|op| match op {
            Ir::SmiArith { op: SmiOp::Add, fail, .. } => Some(*fail),
            _ => None,
        })
        .expect("send site must translate to SmiArith{Add}");
    let fail_block = ir
        .blocks
        .iter()
        .find(|b| b.id == fail)
        .expect("fail must name a real synthesized block");
    assert!(
        matches!(fail_block.code[..], [Ir::UncommonTrap { .. }]),
        "the fail block must be a single Ir::UncommonTrap, got {:?}",
        fail_block.code
    );
    assert_eq!(fail_block.deopt_sites.len(), 1);
    let (ci, raw) = &fail_block.deopt_sites[0];
    assert_eq!(*ci, 0);
    assert!(raw.reexecute);
    assert_eq!(raw.kind, SafepointKind::UncommonTrap);
    assert_eq!(raw.stack.len(), 2, "reexecute stack carries the send's two inputs");
    assert!(
        !ir.blocks
            .iter()
            .any(|b| b.code.iter().any(|op| matches!(op, Ir::Bailout { .. }))),
        "Ir::Bailout must never be constructed by convert()"
    );
    assert!(
        !fail_block.code.iter().any(|op| matches!(op, Ir::CallSend { .. })),
        "the smi fail block does not emit a CallSend fallback"
    );
}

/// `m: arg [ ^self < arg ifTrue: [1] ifFalse: [0] ]`.
fn compare_and_branch(vm: &mut VmState, lt_sel: SymbolOop) -> MethodOop {
    let mut b = Builder::new();
    let l1 = b.new_label();
    let l2 = b.new_label();
    b.push_self();
    b.push_temp(0);
    b.send(vm, lt_sel, 1);
    b.br_false_fwd(l1);
    b.push_smi_i8(1);
    b.jump_fwd(l2);
    b.bind(l1);
    b.push_smi_i8(0);
    b.bind(l2);
    b.ret_tos();
    b.finish(vm, 1, 0)
}

#[test]
fn smi_cmp_fused_with_branch() {
    let mut vm = test_vm();
    let lt_sel = selector(b"<");
    let lt_method = primitive_stub(&mut vm, 10);
    let method = compare_and_branch(&mut vm, lt_sel);
    let smi_klass = vm.universe.smi_klass;
    set_mono(&mut vm, method, 0, smi_klass, lt_method);

    let cfg = decode(&vm, method);
    let ir = convert(&vm, vm.universe.smi_klass, method, &cfg, None);

    let block0 = &ir.blocks[0];
    assert!(
        block0
            .code
            .iter()
            .any(|op| matches!(op, Ir::SmiCmpBr { op: CmpOp::Lt, .. })),
        "must fuse into a single SmiCmpBr"
    );
    assert!(
        !block0
            .code
            .iter()
            .any(|op| matches!(op, Ir::SmiCmpVal { .. } | Ir::BoolBr { .. })),
        "fusion must skip both the materialize step and the separate branch"
    );
}

#[test]
fn double_cmp_fused_with_branch() {
    let mut vm = test_vm();
    let lt_sel = selector(b"<");
    let lt_method = primitive_stub(&mut vm, 104);
    let double_klass = vm.universe.double_klass;
    vm.lookups.push(Lookup { klass: double_klass, selector: lt_sel, method: lt_method });
    let method = compare_and_branch(&mut vm, lt_sel);
    set_mono(&mut vm, method, 0, double_klass, lt_method);

    let cfg = decode(&vm, method);
    let ir = convert(&vm, double_klass, method, &cfg, None);

    assert!(
        ir.blocks.iter().any(|blk| blk
            .code
            .iter()
            .any(|op| matches!(op, Ir::FCmpBr { op: CmpOp::Lt, .. }))),
        "must fuse into a single FCmpBr"
    );
    assert!(
        !ir.blocks.iter().any(|blk| blk
            .code
            .iter()
            .any(|op| matches!(op, Ir::FCmpVal { .. } | Ir::BoolBr { .. }))),
        "fusion must skip both the materialize step and the separate branch"
    );
}

#[test]
fn stack_sim_depths_agree() {
    let mut vm = test_vm();
    let mut b = Builder::new();
    let l1 = b.new_label();
    let l2 = b.new_label();
    b.push_true();
    b.br_false_fwd(l1);
    b.push_smi_i8(1);
    b.jump_fwd(l2);
    b.bind(l1);
    b.push_smi_i8(2);
    b.bind(l2);
    b.ret_tos();
    let method = b.finish(&mut vm, 0, 0);

    let cfg = decode(&vm, method);
    let ir = convert(&vm, vm.universe.smi_klass, method, &cfg, None);

    let merge = &ir.blocks[3];
    assert_eq!(merge.entry_stack.len(), 1, "entry_depth 1 -> one merge vreg");
    let merge_vreg = merge.entry_stack[0];

    for pred_idx in [1usize, 2] {
        let pred = &ir.blocks[pred_idx];
        let last_move = pred.code.iter().rev().find_map(|op| match op {
            Ir::Move { dst, src } => Some((*dst, *src)),
            _ => None,
        });
        assert_eq!(
            last_move.map(|(dst, _)| dst),
            Some(merge_vreg),
            "block {pred_idx} must Move its exit value into the merge vreg"
        );
    }
}

#[test]
fn single_pred_inherits_stack() {
    let mut vm = test_vm();
    let mut b = Builder::new();
    let l = b.new_label();
    b.push_smi_i8(1);
    b.jump_fwd(l);
    b.bind(l);
    b.ret_tos();
    let method = b.finish(&mut vm, 0, 0);

    let cfg = decode(&vm, method);
    let ir = convert(&vm, vm.universe.smi_klass, method, &cfg, None);

    assert_eq!(ir.blocks.len(), 2);
    let const_dst = ir.blocks[0]
        .code
        .iter()
        .find_map(|op| match op {
            Ir::ConstSmi { dst, value: 1 } => Some(*dst),
            _ => None,
        })
        .expect("block 0 has a ConstSmi(1)");
    assert_eq!(ir.blocks[1].entry_stack, vec![const_dst]);
    assert!(
        !ir.blocks[0].code.iter().any(|op| matches!(op, Ir::Move { .. })),
        "a single non-backward predecessor must not insert a copy"
    );
}

#[test]
fn temp_slots_single_vreg() {
    let mut vm = test_vm();
    let mut b = Builder::new();
    let l1 = b.new_label();
    let l2 = b.new_label();
    b.push_smi_i8(5);
    b.store_temp_pop(0);
    b.push_true();
    b.br_false_fwd(l1);
    b.push_temp(0);
    b.jump_fwd(l2);
    b.bind(l1);
    b.push_smi_i8(0);
    b.bind(l2);
    b.ret_tos();
    let method = b.finish(&mut vm, 0, 1);

    let cfg = decode(&vm, method);
    let ir = convert(&vm, vm.universe.smi_klass, method, &cfg, None);

    let stored_vreg = ir.blocks[0]
        .code
        .iter()
        .find_map(|op| match op {
            Ir::Move { dst, .. } => Some(*dst),
            _ => None,
        })
        .expect("block 0 stores into temp 0 via a Move");
    let push_temp_src = ir.blocks[1]
        .code
        .iter()
        .find_map(|op| match op {
            Ir::Move { src, .. } => Some(*src),
            _ => None,
        })
        .expect("block 1 reads temp 0 via a Move");
    assert_eq!(push_temp_src, stored_vreg);
}

/// Nothing dangles: registers, blocks, pool entries and call sites exist, every deoptimization site
/// stands at an operation of its kind, and unboxed doubles have registers of their own.
fn assert_sound(ir: &IrMethod) {
    let reg = |v: VReg| assert!((v.0 as usize) < ir.vregs.len());
    let to = |b: BlockId| assert!((b.0 as usize) < ir.blocks.len());
    let lit = |l: PoolLit| assert!((l.0 as usize) < ir.pool.len());
    for (k, blk) in ir.blocks.iter().enumerate() {
        assert_eq!(blk.id, BlockId(k as u32));
        blk.entry_stack.iter().for_each(|v| reg(*v));
        for op in &blk.code {
            op.uses().into_iter().for_each(reg);
            op.defs().into_iter().for_each(reg);
            let fp = |v: &VReg| ir.vregs[v.0 as usize].is_fp;
            match op {
                Ir::FUnbox { dst, src, .. } => assert!(fp(dst) && !fp(src)),
                Ir::FBox { dst, src } => assert!(!fp(dst) && fp(src)),
                Ir::FArith { dst, a, b, .. } => assert!(fp(dst) && fp(a) && fp(b)),
                Ir::FConst { dst, .. } => assert!(fp(dst)),
                Ir::FCmpVal { dst, a, b, .. } => assert!(!fp(dst) && fp(a) && fp(b)),
                Ir::FCmpBr { a, b, .. } => assert!(fp(a) && fp(b)),
                Ir::Move { dst, src } => assert_eq!(fp(dst), fp(src)),
                _ => assert!(!op.uses().iter().chain(op.defs().iter()).any(fp)),
            }
            match op {
                Ir::Bailout { .. } => panic!("gave up"),
                Ir::Jump { target } => to(*target),
                Ir::BoolBr { if_true, if_false, not_bool, .. } => {
                    [*if_true, *if_false, *not_bool].into_iter().for_each(to)
                }
                Ir::SmiCmpBr { if_true, if_false, fail, .. } => {
                    [*if_true, *if_false, *fail].into_iter().for_each(to)
                }
                Ir::FCmpBr { if_true, if_false, .. } => {
                    [*if_true, *if_false].into_iter().for_each(to)
                }
                Ir::SmiArith { fail, .. }
                | Ir::SmiCmpVal { fail, .. }
                | Ir::BoolNot { fail, .. }
                | Ir::FUnbox { fail, .. } => to(*fail),
                Ir::ArrayAt { klass, fail, .. } | Ir::ArrayAtPut { klass, fail, .. } => {
                    lit(*klass);
                    to(*fail)
                }
                Ir::GuardKlass { expect, fail, .. } => {
                    lit(*expect);
                    to(*fail)
                }
                Ir::ConstPool { lit: l, .. } => lit(*l),
                Ir::Alloc { klass, .. } => lit(*klass),
                Ir::CallSend { site, .. } => assert!((*site as usize) < ir.call_sites.len()),
                _ => {}
            }
        }
        for (ci, raw) in &blk.deopt_sites {
            raw.stack.iter().for_each(|v| reg(*v));
            let fits = match (raw.kind, &blk.code[*ci as usize]) {
                (SafepointKind::Call, Ir::CallSend { .. }) => !raw.reexecute,
                (SafepointKind::LoopPoll, Ir::Poll) => raw.reexecute,
                (SafepointKind::Alloc, Ir::Alloc { .. }) => raw.reexecute,
                (SafepointKind::UncommonTrap, Ir::UncommonTrap { .. }) => raw.reexecute,
                _ => false,
            };
            assert!(fits, "a site stands at an operation of its kind");
        }
    }
    let mut fails: Vec<u32> = Vec::new();
    for op in ir.blocks.iter().flat_map(|b| b.code.iter()) {
        if let Ir::ArrayAt { fail, .. }
        | Ir::ArrayAtPut { fail, .. }
        | Ir::SmiArith { fail, .. }
        | Ir::SmiCmpVal { fail, .. }
        | Ir::SmiCmpBr { fail, .. }
        | Ir::BoolNot { fail, .. }
        | Ir::GuardKlass { fail, .. }
        | Ir::BoolBr { not_bool: fail, .. } = op
        {
            assert!(!fails.contains(&fail.0), "a fail block serves one operation");
            fails.push(fail.0);
        }
    }
    assert!(ir.vregs.iter().all(|v| !(v.is_oop && v.is_fp)), "no unboxed double is an object");
    assert_eq!(ir.call_sites.len(), ir.site_feedback.len());
    for (i, a) in ir.pool.iter().enumerate() {
        assert!(!ir.pool[..i].contains(a), "pool entries differ");
    }
    let r = regalloc(ir);
    assert_eq!(r.block_order.len(), ir.blocks.len());
}

fn compile(vm: &VmState, m: MethodOop, osr_bci: Option<u16>) -> IrMethod {
    let cfg = decode(vm, m);
    let ir = convert(vm, KlassOop(0x7001), m, &cfg, osr_bci);
    assert_sound(&ir);
    ir
}

fn count(ir: &IrMethod, f: fn(&Ir) -> bool) -> usize {
    ir.blocks.iter().flat_map(|b| b.code.iter()).filter(|op| f(op)).count()
}

fn traps(ir: &IrMethod) -> usize {
    count(ir, |op| matches!(op, Ir::UncommonTrap { .. }))
}

#[test]
fn exact_code_of_small_methods() {
    let mut vm = test_vm();
    let mut b = Builder::new();
    b.ret_self();
    let m = b.finish(&mut vm, 0, 0);
    let ir = compile(&vm, m, None);
    assert_eq!(
        format!("{:?}", ir.blocks[0].code),
        format!("{:?}", vec![Ir::<Vec<VReg>>::Param { dst: VReg(0), index: 0 }, Ir::RetSelf])
    );
    assert_eq!(ir.method_pool_ix, None, "no deoptimization site, no need for the method");

    let mut b = Builder::new();
    b.push_temp(0);
    b.op(Instr::StoreInstvarPop(2));
    b.push_smi_i8(7);
    b.ret_tos();
    let m = b.finish(&mut vm, 1, 1);
    let ir = compile(&vm, m, None);
    assert_eq!(
        format!("{:?}", ir.blocks[0].code),
        format!(
            "{:?}",
            vec![
                Ir::<Vec<VReg>>::Param { dst: VReg(0), index: 0 },
                Ir::Param { dst: VReg(1), index: 1 },
                Ir::ConstPool { dst: VReg(2), lit: ir.nil_lit },
                Ir::StoreField {
                    obj: VReg(0),
                    byte_off: BODY_OFFSET as i32 + 16,
                    val: VReg(1),
                    barrier: true
                },
                Ir::ConstSmi { dst: VReg(4), value: 7 },
                Ir::Ret { val: VReg(4) },
            ]
        ),
        "the defensive copy of the temporary is gone"
    );
}

#[test]
fn loops_poll_on_the_way_back() {
    let mut vm = test_vm();
    let mut b = Builder::new();
    let top = b.new_label();
    let out = b.new_label();
    b.push_smi_i8(0);
    b.store_temp_pop(0);
    b.bind(top);
    b.push_true();
    b.br_false_fwd(out);
    b.push_temp(0);
    b.op(Instr::Pop);
    b.jump_back(top);
    b.bind(out);
    b.ret_self();
    let m = b.finish(&mut vm, 0, 1);
    let ir = compile(&vm, m, None);
    let body = &ir.blocks[2];
    let at = body.code.iter().position(|op| matches!(op, Ir::Poll)).expect("a poll");
    assert!(matches!(body.code[at + 1], Ir::Jump { target: BlockId(1) }));
    let (ci, raw) = &body.deopt_sites[0];
    assert_eq!(*ci as usize, at);
    assert_eq!(raw.kind, SafepointKind::LoopPoll);
    assert!(raw.reexecute);
    assert_eq!(raw.bci, 4, "the loop header");
    assert_eq!(traps(&ir), 1, "the branch may meet something that is no boolean");
}

#[test]
fn array_access_is_fused() {
    let mut vm = test_vm();
    let at = primitive_stub(&mut vm, 26);
    let put = primitive_stub(&mut vm, 27);
    let mut b = Builder::new();
    b.push_self();
    b.push_temp(0);
    b.push_temp(1);
    b.send(&vm, selector(b"at:put:"), 2);
    b.op(Instr::Pop);
    b.push_self();
    b.push_temp(0);
    b.send(&vm, selector(b"at:"), 1);
    b.ret_tos();
    let m = b.finish(&mut vm, 2, 0);
    let array = vm.universe.array_klass;
    set_mono(&mut vm, m, 0, array, put);
    set_mono(&mut vm, m, 1, array, at);
    let ir = compile(&vm, m, None);
    assert_eq!(count(&ir, |op| matches!(op, Ir::ArrayAt { .. })), 1);
    assert_eq!(count(&ir, |op| matches!(op, Ir::ArrayAtPut { .. })), 1);
    assert_eq!(traps(&ir), 2);
    assert!(ir.call_sites.is_empty());
}

#[test]
fn float_arithmetic_with_an_integer_constant() {
    let mut vm = test_vm();
    let plus = primitive_stub(&mut vm, 100);
    let double = vm.universe.double_klass;
    let sel = selector(b"+");
    vm.lookups.push(Lookup { klass: double, selector: sel, method: plus });
    let mut b = Builder::new();
    b.push_temp(0);
    b.push_smi_i8(3);
    b.send(&vm, sel, 1);
    b.ret_tos();
    let m = b.finish(&mut vm, 1, 0);
    set_mono(&mut vm, m, 0, double, plus);
    let ir = compile(&vm, m, None);
    assert_eq!(count(&ir, |op| matches!(op, Ir::FArith { op: FArithOp::Add, .. })), 1);
    assert_eq!(count(&ir, |op| matches!(op, Ir::FUnbox { .. })), 1, "only the receiver is unboxed");
    let bits: Vec<u64> = ir
        .blocks
        .iter()
        .flat_map(|b| b.code.iter())
        .filter_map(|op| match op {
            Ir::FConst { bits, .. } => Some(*bits),
            _ => None,
        })
        .collect();
    assert_eq!(bits, vec![3.0f64.to_bits()]);
    assert!(matches!(ir.blocks[0].code.last(), Some(Ir::Ret { .. })));
}

/// A callee with a branch is grafted block by block.
#[test]
fn callees_with_branches_are_grafted() {
    let mut vm = test_vm();
    let klass = KlassOop(0x3001);
    let pick = {
        let mut b = Builder::new();
        let no = b.new_label();
        b.push_temp(0);
        b.br_false_fwd(no);
        b.push_smi_i8(1);
        b.ret_tos();
        b.bind(no);
        b.push_smi_i8(2);
        b.ret_tos();
        b.finish(&mut vm, 1, 0)
    };
    vm.methods[pick.0].eligible_cfg = true;
    let mut b = Builder::new();
    b.push_self();
    b.push_temp(0);
    b.send(&vm, selector(b"pick:"), 1);
    b.ret_tos();
    let m = b.finish(&mut vm, 1, 0);
    set_mono(&mut vm, m, 0, klass, pick);
    let ir = compile(&vm, m, None);
    assert!(ir.call_sites.is_empty());
    assert_eq!(ir.inline_deps, vec![(klass, selector(b"pick:"))]);
    assert_eq!(count(&ir, |op| matches!(op, Ir::GuardKlass { .. })), 1);
    assert_eq!(count(&ir, |op| matches!(op, Ir::BoolBr { .. })), 1);
    assert_eq!(count(&ir, |op| matches!(op, Ir::Ret { .. })), 1, "the callee's returns are jumps");
    let inner: Vec<_> = ir
        .blocks
        .iter()
        .flat_map(|b| b.deopt_sites.iter())
        .filter_map(|(_, raw)| raw.inline.as_ref())
        .collect();
    assert_eq!(inner.len(), 1, "the branch's trap rebuilds the callee's frame too");
    assert_eq!(inner[0].sender_bci, 3);
    assert!(inner[0].parent.is_none());

    vm.budget.total_bytes = 5;
    let ir = compile(&vm, m, None);
    assert_eq!(ir.call_sites.len(), 1, "over budget it stays a send");
    assert_eq!(ir.splice_declined_budget, 1);
    assert!(ir.inline_deps.is_empty());
}

/// A send that was never taken traps, except when the code is entered in the middle of a loop.
#[test]
fn cold_sends_stay_in_loop_entries() {
    let mut vm = test_vm();
    let mut b = Builder::new();
    b.push_self();
    b.send(&vm, selector(b"cold"), 0);
    b.ret_tos();
    let m = b.finish(&mut vm, 0, 0);
    let ir = compile(&vm, m, None);
    assert_eq!((traps(&ir), ir.call_sites.len(), ir.osr_cold_sends), (1, 0, 0));
    let ir = compile(&vm, m, Some(0));
    assert_eq!((traps(&ir), ir.call_sites.len(), ir.osr_cold_sends), (0, 1, 1));
    assert!(ir.is_osr);
    assert_eq!(ir.call_sites[0].argc, 1, "the receiver counts");
}

/// The dominant class is spliced; the others go through a slow path that joins again.
#[test]
fn dominant_classes_keep_a_slow_path() {
    let mut vm = test_vm();
    let klass = KlassOop(0x3001);
    let id = {
        let mut b = Builder::new();
        b.ret_self();
        b.finish(&mut vm, 0, 0)
    };
    let mut b = Builder::new();
    b.push_temp(0);
    b.send(&vm, selector(b"id"), 0);
    b.ret_tos();
    let m = b.finish(&mut vm, 1, 0);
    {
        let ic = &mut vm.methods[m.0].ics[0];
        ic.feedback = SiteFeedback::Poly { cases: vec![PolyCase { klass, method: id }] };
        ic.decision = InlineDecision::DominantWithSlowPath {
            case_klass: klass,
            case_method: id,
            guard: GuardKind::KlassTest,
        };
    }
    let ir = compile(&vm, m, None);
    assert_eq!(ir.call_sites.len(), 1);
    assert_eq!(count(&ir, |op| matches!(op, Ir::GuardKlass { .. })), 1);
    assert_eq!(traps(&ir), 0, "a miss is a send, not a trap");
    let slow = ir
        .blocks
        .iter()
        .find(|b| matches!(b.code.first(), Some(Ir::CallSend { .. })))
        .expect("the slow path");
    assert!(matches!(slow.code[..], [Ir::CallSend { .. }, Ir::Move { .. }, Ir::Jump { .. }]));
}

#[test]
fn super_sends_name_their_class() {
    let mut vm = test_vm();
    let (sub, sup) = (KlassOop(0x3001), KlassOop(0x3011));
    vm.klasses.push(KlassInfo {
        klass: sub,
        superclass: Some(sup),
        slots_format: true,
        non_indexable_size: HEADER_WORDS,
        sole_instance: None,
    });
    let mut b = Builder::new();
    b.push_self();
    b.send_super(&vm, selector(b"init"), 0);
    b.ret_tos();
    let m = b.finish(&mut vm, 0, 0);
    vm.methods[m.0].holder = Some(sub);
    let ir = compile(&vm, m, None);
    assert_eq!(ir.call_sites.len(), 1);
    assert_eq!(ir.call_sites[0].static_klass, Some(sup));
}

/// `Point basicNew` with a known class allocates in line.
#[test]
fn instances_are_allocated_in_line() {
    let mut vm = test_vm();
    let point = KlassOop(0x3001);
    vm.klasses.push(KlassInfo {
        klass: point,
        superclass: None,
        slots_format: true,
        non_indexable_size: HEADER_WORDS + 2,
        sole_instance: None,
    });
    let new = primitive_stub(&mut vm, 23);
    let mut b = Builder::new();
    b.op(Instr::PushGlobal(0));
    b.send(&vm, selector(b"basicNew"), 0);
    b.ret_tos();
    let m = b.finish(&mut vm, 0, 0);
    vm.methods[m.0].literals.push(Literal {
        raw: 0x5001,
        global_klass: Some(point),
        method: None,
    });
    set_mono(&mut vm, m, 0, KlassOop(0x3021), new);
    let ir = compile(&vm, m, None);
    assert!(ir.call_sites.is_empty());
    let sizes: Vec<u32> = ir
        .blocks
        .iter()
        .flat_map(|b| b.code.iter())
        .filter_map(|op| match op {
            Ir::Alloc { size_words, .. } => Some(*size_words),
            _ => None,
        })
        .collect();
    assert_eq!(sizes, vec![4]);
    assert_eq!(ir.blocks[0].deopt_sites[0].1.kind, SafepointKind::Alloc);
}

/// A closure that only its own method invokes is never made: its body stands in place of the send.
#[test]
fn elided_closures_are_spliced() {
    let mut vm = test_vm();
    let block = {
        let mut b = Builder::new();
        b.push_smi_i8(42);
        b.op(Instr::BlockReturnTos);
        b.finish(&mut vm, 0, 0)
    };
    vm.methods[block.0].is_block = true;
    let mut b = Builder::new();
    b.op(Instr::PushClosure { lit: 0, ncopied: 0 });
    b.send(&vm, selector(b"value"), 0);
    b.ret_tos();
    let m = b.finish(&mut vm, 0, 0);
    let method = &mut vm.methods[m.0];
    method.literals.push(Literal { raw: 0x6001, global_klass: None, method: Some(block) });
    method.escape.value_sends.push((2, 0));
    let ir = compile(&vm, m, None);
    assert_eq!(count(&ir, |op| matches!(op, Ir::Alloc { .. } | Ir::CallSend { .. })), 0);
    assert_eq!(count(&ir, |op| matches!(op, Ir::ConstSmi { value: 42, .. })), 1);

    let method = &mut vm.methods[m.0];
    method.escape.value_sends.clear();
    method.escape.all_elidable = false;
    method.escape.escaping.push(0);
    let ir = compile(&vm, m, None);
    assert_eq!(count(&ir, |op| matches!(op, Ir::Alloc { size_words: 6, .. })), 1);
}

/// Compiled block bodies take the closure as their first parameter and return out of it.
#[test]
fn block_bodies_return_non_locally() {
    let mut vm = test_vm();
    let mut b = Builder::new();
    b.push_temp(0);
    b.op(Instr::NlrTos);
    let m = b.finish(&mut vm, 1, 0);
    vm.methods[m.0].is_block = true;
    let ir = compile(&vm, m, None);
    let closure = ir.block_closure_vreg.expect("a closure");
    assert!(matches!(
        ir.blocks[0].code[0],
        Ir::Param { dst, index: 0 } if dst == closure
    ));
    assert!(matches!(
        ir.blocks[0].code.last(),
        Some(Ir::NlrReturn { closure: c, .. }) if *c == closure
    ));
}

/// A closure takes its captured values off the stack. Both arms leave one value behind, so that the
/// block they meet in has one register of its own.
#[test]
fn captured_values_leave_the_stack() {
    let mut vm = test_vm();
    let block = {
        let mut b = Builder::new();
        b.push_smi_i8(42);
        b.op(Instr::BlockReturnTos);
        b.finish(&mut vm, 0, 0)
    };
    vm.methods[block.0].is_block = true;
    let mut b = Builder::new();
    let other = b.new_label();
    let meet = b.new_label();
    b.push_true();
    b.br_false_fwd(other);
    b.push_smi_i8(1);
    b.push_smi_i8(2);
    let site = b.next;
    b.op(Instr::PushClosure { lit: 0, ncopied: 2 });
    b.jump_fwd(meet);
    b.bind(other);
    b.push_smi_i8(3);
    b.bind(meet);
    b.ret_tos();
    let m = b.finish(&mut vm, 0, 0);
    let method = &mut vm.methods[m.0];
    method.literals.push(Literal { raw: 0x6001, global_klass: None, method: Some(block) });
    method.escape.all_elidable = false;
    method.escape.escaping.push(site);
    for (ncopied, want) in [(0, 1), (1, 0), (2, -1), (255, -254)] {
        let i = Instr::PushClosure { lit: 0, ncopied };
        assert_eq!(instr_stack_delta(&vm.methods[m.0], &i), want);
    }
    let ir = compile(&vm, m, None);
    assert_eq!(ir.blocks[3].entry_stack.len(), 1);
    assert_eq!(count(&ir, |op| matches!(op, Ir::Alloc { size_words: 8, .. })), 1);
    assert!(ir.method_pool_ix.is_some());
}

/// Only methods with a deoptimization site name themselves in the pool.
#[test]
fn methods_without_sites_are_not_pooled() {
    let mut vm = test_vm();
    let mut b = Builder::new();
    b.ret_self();
    let m = b.finish(&mut vm, 0, 0);
    let ir = compile(&vm, m, None);
    assert!(ir.blocks.iter().all(|b| b.deopt_sites.is_empty()));
    assert_eq!(ir.method_pool_ix, None);
}
