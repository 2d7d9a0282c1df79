use kuna_sleigh::opcode::OpCode;
use kuna_sleigh::semantics::{
    build_action, build_op, cross_build_op, delay_slot_op, label_build_op, BuildAction,
    BuildError, ConstTpl, ConstType, ConstructTpl, OpTpl, PcodeBuilder, VarnodeTpl,
};
use kuna_sleigh::space::{AddrSpace, SpaceType};

fn cspace() -> AddrSpace {
    AddrSpace::new(0, SpaceType::Constant, false, 8, 1)
}

fn ram() -> AddrSpace {
    AddrSpace::new(1, SpaceType::Processor, false, 4, 1)
}

fn uniq() -> AddrSpace {
    AddrSpace::new(2, SpaceType::Internal, false, 4, 1)
}

fn copy_op() -> OpTpl {
    let mut op = OpTpl::new(OpCode::CPUI_COPY);
    op.add_input(VarnodeTpl::new(
        ConstTpl::new_space(ram()),
        ConstTpl::new_real(ConstType::Real, 0x42),
        ConstTpl::new_real(ConstType::Real, 4),
    ));
    op.set_output(VarnodeTpl::new(
        ConstTpl::new_space(uniq()),
        ConstTpl::new_real(ConstType::Real, 0x10),
        ConstTpl::new_real(ConstType::Real, 4),
    ));
    op
}

fn mkin(val: u64) -> VarnodeTpl {
    VarnodeTpl::new(
        ConstTpl::new_space(cspace()),
        ConstTpl::new_real(ConstType::Real, val),
        ConstTpl::new_real(ConstType::Real, 4),
    )
}

struct TestBuilder {
    labelbase: u32,
    labelcount: u32,
    calls: Vec<String>,
    /// (labelbase, labelcount) observed while inside build()
    inside: Vec<(u32, u32)>,
    fail_on_dump: bool,
}

impl TestBuilder {
    fn new(lbcnt: u32) -> TestBuilder {
        TestBuilder {
            labelbase: lbcnt,
            labelcount: lbcnt,
            calls: Vec::new(),
            inside: Vec::new(),
            fail_on_dump: false,
        }
    }
}

impl PcodeBuilder for TestBuilder {
    fn label_base_of(&self) -> u32 {
        self.labelbase
    }
    fn label_count_of(&self) -> u32 {
        self.labelcount
    }
    fn get_label_base(&self) -> u32 {
        self.labelbase
    }
    fn set_label_base(&mut self, val: u32) {
        self.labelbase = val;
    }
    fn get_label_count(&self) -> u32 {
        self.labelcount
    }
    fn set_label_count(&mut self, val: u32) {
        self.labelcount = val;
    }
    fn dump(&mut self, op: &OpTpl) -> Result<(), BuildError> {
        if self.fail_on_dump {
            return Err(BuildError::Failed("dump refused".to_string()));
        }
        self.calls.push(format!("dump:{:?}", op.get_opcode()));
        self.inside.push((self.labelbase, self.labelcount));
        Ok(())
    }
    fn append_build(&mut self, _bld: &OpTpl, secnum: i32) -> Result<(), BuildError> {
        self.calls.push(format!("build:{secnum}"));
        Ok(())
    }
    fn delay_slot(&mut self, _op: &OpTpl) -> Result<(), BuildError> {
        self.calls.push("delayslot".to_string());
        Ok(())
    }
    fn set_label(&mut self, _op: &OpTpl) -> Result<(), BuildError> {
        self.calls.push("setlabel".to_string());
        Ok(())
    }
    fn append_cross_build(&mut self, _bld: &OpTpl, secnum: i32) -> Result<(), BuildError> {
        self.calls.push(format!("crossbuild:{secnum}"));
        Ok(())
    }
}

fn dispatch_template() -> ConstructTpl {
    let mut ct = ConstructTpl::new();
    let mut bld = OpTpl::new(build_op());
    bld.add_input(mkin(0));
    assert!(ct.add_op(bld));
    let mut ds = OpTpl::new(delay_slot_op());
    ds.add_input(mkin(1));
    assert!(ct.add_op(ds));
    let mut lab = OpTpl::new(label_build_op());
    lab.add_input(mkin(0));
    assert!(ct.add_op(lab));
    let mut cb = OpTpl::new(cross_build_op());
    cb.add_input(mkin(0));
    assert!(ct.add_op(cb));
    assert!(ct.add_op(copy_op()));
    ct
}

#[test]
fn semantics_pcodebuilder_build_dispatch_and_labels() {
    let ct = dispatch_template();
    let mut builder = TestBuilder::new(5);
    builder.build(Some(&ct), 2).unwrap();
    assert_eq!(
        builder.calls,
        vec![
            "build:2".to_string(),
            "delayslot".to_string(),
            "setlabel".to_string(),
            "crossbuild:2".to_string(),
            "dump:CPUI_COPY".to_string(),
        ]
    );
    // during the build: labelbase moved to old labelcount and labelcount
    // grew by the template's label count (1)
    assert_eq!(builder.inside, vec![(5, 6)]);
    // labelbase restored afterwards
    assert_eq!(builder.get_label_base(), 5);
    assert_eq!(builder.get_label_count(), 6);

    // null template is refused as unimplemented
    let err = builder.build(None, 0).unwrap_err();
    assert!(matches!(err, BuildError::Unimplemented));
}

#[test]
fn build_action_names_the_callback_for_each_code() {
    assert_eq!(build_action(OpCode::CPUI_MULTIEQUAL), BuildAction::AppendBuild);
    assert_eq!(build_action(OpCode::CPUI_INDIRECT), BuildAction::DelaySlot);
    assert_eq!(build_action(OpCode::CPUI_PTRADD), BuildAction::SetLabel);
    assert_eq!(build_action(OpCode::CPUI_PTRSUB), BuildAction::CrossBuild);
    assert_eq!(build_action(OpCode::CPUI_COPY), BuildAction::Dump);
    assert_eq!(build_action(OpCode::CPUI_LOAD), BuildAction::Dump);
}

#[test]
fn a_failing_callback_stops_the_build() {
    let ct = dispatch_template();
    let mut builder = TestBuilder::new(0);
    builder.fail_on_dump = true;
    let err = builder.build(Some(&ct), 1).unwrap_err();
    assert_eq!(err, BuildError::Failed("dump refused".to_string()));
    // the ops before the failing one were handed out
    assert_eq!(builder.calls.len(), 4);
}

#[test]
fn label_count_wraps() {
    let mut ct = ConstructTpl::new();
    let mut lab = OpTpl::new(label_build_op());
    lab.add_input(mkin(0));
    assert!(ct.add_op(lab));
    let mut builder = TestBuilder::new(u32::MAX);
    builder.build(Some(&ct), 0).unwrap();
    assert_eq!(builder.get_label_base(), u32::MAX);
    assert_eq!(builder.get_label_count(), 0);
}
