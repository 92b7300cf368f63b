//! A control: the output that drives a fan.
use vstd::prelude::*;
use crate::text::clone_option;
use crate::app_graph::AppGraph;
use crate::hardware::{control_by_id, find_control, Hardware};
use crate::node::{node_made, IsValid, Node, NodeType, ToNode};
use crate::hardware::{HControl, HardwareBridge, Mode, Value};
use crate::hardware::{extends, lemma_no_call, lemma_one_call, lemma_two_calls, made_calls, BridgeCall};
use crate::update::{control_read, hardware_result, unit_of, write_reported, UpdateError};

verus! {

/// A control bound to a hardware pwm output by its identifier; it takes its
/// speed from the behavior named in `input`.
pub struct Control {
    pub name: String,
    pub hardware_id: Option<String>,
    pub input: Option<String>,
    pub active: bool,
    pub control_h: Option<HControl>,
    pub mode_set: Option<Mode>,
}

/// The error for an item that is not bound to hardware.
pub open spec fn is_invalid_error(r: UpdateError, name: Seq<char>) -> bool {
    r matches UpdateError::NodeIsInvalid(n) && n@ == name
}

/// `c2` is `c1` with possibly another mode.
pub open spec fn same_but_mode(c1: Control, c2: Control) -> bool {
    &&& c2.name == c1.name
    &&& c2.hardware_id == c1.hardware_id
    &&& c2.input == c1.input
    &&& c2.active == c1.active
    &&& c2.control_h == c1.control_h
}

impl Control {
    pub fn new(
        name: String,
        hardware_id: Option<String>,
        input: Option<String>,
        active: bool,
        control_h: Option<HControl>,
    ) -> (r: Self)
        ensures
            r.name == name,
            r.hardware_id == hardware_id,
            r.input == input,
            r.active == active,
            r.control_h == control_h,
            r.mode_set.is_none(),
    {
        Self { name, hardware_id, input, active, control_h, mode_set: None }
    }

    /// An inactive control bound to nothing.
    pub fn default() -> (r: Self)
        ensures
            r.name@ == Seq::<char>::empty(),
            r.hardware_id.is_none(),
            r.input.is_none(),
            !r.active,
            r.control_h.is_none(),
            r.mode_set.is_none(),
    {
        Self {
            name: String::new(),
            hardware_id: None,
            input: None,
            active: false,
            control_h: None,
            mode_set: None,
        }
    }

    /// Sets the mode of the control, unless it is already the mode set: then
    /// nothing is asked of the bridge. Otherwise the bridge is asked the mode
    /// once, for the control's handle; the mode is recorded only when the
    /// bridge accepts it. A control without a handle is invalid.
    pub fn set_mode<H: HardwareBridge>(&mut self, mode: Mode, bridge: &mut H) -> (r: Result<(), UpdateError>)
        ensures
            same_but_mode(*old(self), *final(self)),
            old(self).mode_set == Some(mode) ==> r is Ok && *final(self) == *old(self) && final(bridge).calls()
                == old(bridge).calls(),
            old(self).mode_set != Some(mode) && old(self).control_h.is_none() ==> is_invalid_error(r->Err_0, old(self).name@)
                && r is Err && *final(self) == *old(self) && final(bridge).calls() == old(bridge).calls(),
            old(self).mode_set != Some(mode) ==> (old(self).control_h matches Some(h) ==> extends(
                old(bridge).calls(),
                final(bridge).calls(),
            ) && mode_switch(h, mode, made_calls(old(bridge).calls(), final(bridge).calls()), r) && final(self).mode_set == (
            if r is Ok {
                Some(mode)
            } else {
                old(self).mode_set
            })),
    {
        if let Some(mode_set) = &self.mode_set {
            if *mode_set == mode {
                return Ok(());
            }
        }
        let ghost c0 = bridge.calls();
        match &self.control_h {
            Some(control_h) => {
                let a = bridge.set_mode(control_h, &mode);
                proof {
                    lemma_one_call(c0, BridgeCall::WriteMode(*control_h, mode, a));
                }
                if let Err(e) = a {
                    return Err(UpdateError::Hardware(e));
                }
            },
            None => {
                return Err(UpdateError::NodeIsInvalid(self.name.clone()));
            },
        }
        self.mode_set = Some(mode);
        Ok(())
    }

    /// Drives the control to `value`: first a switch to manual mode if it is
    /// not in manual mode yet, then, unless that switch failed, one write of
    /// `value` through the control's handle. A control without a handle is
    /// invalid, and nothing is asked of the bridge.
    pub fn set_value<H: HardwareBridge>(&mut self, value: Value, bridge: &mut H) -> (r: Result<Value, UpdateError>)
        ensures
            same_but_mode(*old(self), *final(self)),
            old(self).control_h.is_none() ==> is_invalid_error(r->Err_0, old(self).name@) && r is Err
                && *final(self) == *old(self) && final(bridge).calls() == old(bridge).calls(),
            old(self).control_h matches Some(h) ==> extends(old(bridge).calls(), final(bridge).calls())
                && value_write(*old(self), h, value, made_calls(old(bridge).calls(), final(bridge).calls()), unit_of(r))
                && final(self).mode_set == manual_after(*old(self), made_calls(old(bridge).calls(), final(bridge).calls())),
            r is Ok ==> r->Ok_0 == value && final(self).mode_set == Some(Mode::Manual),
    {
        let ghost c0 = bridge.calls();
        let ghost s0 = *self;
        if self.mode_set != Some(Mode::Manual) {
            match self.set_mode(Mode::Manual, bridge) {
                Ok(()) => {},
                Err(e) => {
                    proof {
                        if s0.control_h is None {
                            lemma_no_call(c0);
                        }
                    }
                    return Err(e);
                },
            }
        }
        let ghost c1 = bridge.calls();
        match &self.control_h {
            Some(control_h) => {
                let a = bridge.set_value(control_h, value);
                proof {
                    if s0.mode_set == Some(Mode::Manual) {
                        lemma_one_call(c0, BridgeCall::WriteValue(*control_h, value, a));
                    } else {
                        let m = made_calls(c0, c1);
                        assert(m.len() == 1);
                        assert(c1 == c0.push(m[0])) by {
                            assert(c1 =~= c0.push(m[0]));
                        }
                        lemma_two_calls(c0, m[0], BridgeCall::WriteValue(*control_h, value, a));
                    }
                }
                match a {
                    Ok(()) => Ok(value),
                    Err(e) => Err(UpdateError::Hardware(e)),
                }
            },
            None => Err(UpdateError::NodeIsInvalid(self.name.clone())),
        }
    }

    /// Reads the current value of the control: one read through its handle,
    /// whose answer is reported. A control without a handle is invalid, and
    /// nothing is asked of the bridge.
    pub fn get_value<H: HardwareBridge>(&self, bridge: &mut H) -> (r: Result<Value, UpdateError>)
        ensures
            self.control_h.is_none() ==> is_invalid_error(r->Err_0, self.name@) && r is Err
                && final(bridge).calls() == old(bridge).calls(),
            self.control_h matches Some(h) ==> extends(old(bridge).calls(), final(bridge).calls())
                && control_read(h, made_calls(old(bridge).calls(), final(bridge).calls()), r),
    {
        match &self.control_h {
            Some(control_h) => {
                let ghost c0 = bridge.calls();
                let a = bridge.get_control_value(control_h);
                proof {
                    lemma_one_call(c0, BridgeCall::ReadControl(*control_h, a));
                }
                hardware_result(a)
            },
            None => Err(UpdateError::NodeIsInvalid(self.name.clone())),
        }
    }
}

/// The calls `made` are one request of `mode` for the handle `h`, whose
/// answer `r` reports.
pub open spec fn mode_switch(h: HControl, mode: Mode, made: Seq<BridgeCall>, r: Result<(), UpdateError>) -> bool {
    &&& made.len() == 1
    &&& (made[0] matches BridgeCall::WriteMode(h1, m1, a) && h1 == h && m1 == mode && r == write_reported(a))
}

/// The call `c` is one write of `value` for the handle `h`, whose answer `r`
/// reports.
pub open spec fn value_written(h: HControl, value: Value, c: BridgeCall, r: Result<(), UpdateError>) -> bool {
    c matches BridgeCall::WriteValue(h1, v1, a) && h1 == h && v1 == value && r == write_reported(a)
}

/// The calls `made` by a write of `value` to the control `c` through its
/// handle `h`: a switch to manual mode first, unless `c` is in manual mode,
/// then the write, unless the switch failed; `r` reports the answer that
/// failed, or the write's.
pub open spec fn value_write(c: Control, h: HControl, value: Value, made: Seq<BridgeCall>, r: Result<(), UpdateError>) -> bool {
    if c.mode_set == Some(Mode::Manual) {
        made.len() == 1 && value_written(h, value, made[0], r)
    } else {
        &&& made.len() >= 1
        &&& (made[0] matches BridgeCall::WriteMode(h1, m1, a1) && h1 == h && m1 == Mode::Manual && match a1 {
            Err(e) => made.len() == 1 && r == Err::<(), UpdateError>(UpdateError::Hardware(e)),
            Ok(_) => made.len() == 2 && value_written(h, value, made[1], r),
        })
    }
}

/// The mode of the control `c` after the calls `made` by a write: manual,
/// unless a switch to manual mode was asked and refused.
pub open spec fn manual_after(c: Control, made: Seq<BridgeCall>) -> Option<Mode> {
    if c.mode_set == Some(Mode::Manual) || made.len() == 2 {
        Some(Mode::Manual)
    } else {
        c.mode_set
    }
}

impl IsValid for Control {
    /// A control can drive its fan when it is active, bound to hardware and
    /// fed by an input.
    fn is_valid(&self) -> (r: bool)
        ensures
            r == (self.active && self.hardware_id.is_some() && self.control_h.is_some()
                && self.input.is_some()),
    {
        self.active && self.hardware_id.is_some() && self.control_h.is_some()
            && self.input.is_some()
    }
}

/// The control bound to the first pwm output of `controls` with its hardware
/// identifier, or, when there is none or no identifier, to nothing.
pub open spec fn control_bound(c: Control, controls: Seq<HControl>) -> Control {
    match c.hardware_id {
        Some(id) => match find_control(controls, id@) {
            Some(h) => Control { control_h: Some(h), ..c },
            None => Control { hardware_id: None, control_h: None, ..c },
        },
        None => Control { control_h: None, ..c },
    }
}

impl ToNode for Control {
    fn to_node(self, app_graph: &mut AppGraph, hardware: &Hardware) -> (r: Node)
        ensures
            node_made(
                *old(app_graph),
                *final(app_graph),
                NodeType::Control(control_bound(self, hardware.controls@)),
                r,
            ),
    {
        let mut item = self;
        let found = match &item.hardware_id {
            Some(id) => Some(control_by_id(&hardware.controls, id)),
            None => None,
        };
        match found {
            Some(Some(h)) => {
                item.control_h = Some(h);
            },
            Some(None) => {
                item.hardware_id = None;
                item.control_h = None;
            },
            None => {
                item.control_h = None;
            },
        }
        Node::new(NodeType::Control(item), app_graph)
    }
}

impl Control {
    /// A copy of this control, field for field.
    pub fn copy(&self) -> (r: Self)
        ensures
            r == *self,
    {
        Control {
            name: self.name.clone(),
            hardware_id: clone_option(&self.hardware_id),
            input: clone_option(&self.input),
            active: self.active,
            control_h: match &self.control_h {
                Some(h) => Some(h.copy()),
                None => None,
            },
            mode_set: match &self.mode_set {
                Some(m) => Some(m.copy()),
                None => None,
            },
        }
    }
}

} // verus!
