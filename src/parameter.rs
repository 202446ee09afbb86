//! Module parameters (typed values with optional bounds) and ports.

use vstd::prelude::*;

use crate::object::string_eq;

verus! {

/// A parameter value. Floating-point values are held as their IEEE-754
/// bit patterns.
#[derive(Debug, Clone, PartialEq, Eq)]
pub enum ParameterValue {
    Int(i32),
    Float(u32),
    String(String),
    Bool(bool),
    VecInt(Vec<i32>),
    VecFloat(Vec<u32>),
    VecString(Vec<String>),
}

/// The kind of a parameter, with its optional bounds.
#[derive(Debug, Clone, Copy, PartialEq, Eq, Structural)]
pub enum ParameterType {
    Int { min: Option<i32>, max: Option<i32> },
    Float { min: Option<u32>, max: Option<u32> },
    String,
    Bool,
    VectorInt { min: Option<i32>, max: Option<i32> },
    VectorFloat { min: Option<u32>, max: Option<u32> },
    VectorString,
}

/// Whether the bits encode a NaN.
pub open spec fn f32_is_nan(bits: u32) -> bool {
    (bits / 0x80_0000) % 256 == 255 && bits % 0x80_0000 != 0
}

/// Position of a non-NaN `f32` on the number line: equal keys for equal
/// values (so `-0.0` and `0.0` agree), and larger keys for larger values.
pub open spec fn f32_order_key(bits: u32) -> int {
    if bits >= 0x8000_0000 {
        -((bits - 0x8000_0000) as int)
    } else {
        bits as int
    }
}

/// `v` lies within the optional bounds, as an integer.
pub open spec fn int_in_bounds(v: i32, min: Option<i32>, max: Option<i32>) -> bool {
    (min matches Some(lo) ==> lo <= v) && (max matches Some(hi) ==> v <= hi)
}

/// `v` is a number and lies within the optional bounds; a NaN bound admits
/// nothing.
pub open spec fn float_in_bounds(v: u32, min: Option<u32>, max: Option<u32>) -> bool {
    &&& !f32_is_nan(v)
    &&& (min matches Some(lo) ==> !f32_is_nan(lo) && f32_order_key(lo) <= f32_order_key(v))
    &&& (max matches Some(hi) ==> !f32_is_nan(hi) && f32_order_key(v) <= f32_order_key(hi))
}

/// `v` has the kind `t`.
pub open spec fn kind_matches(t: ParameterType, v: ParameterValue) -> bool {
    match (t, v) {
        (ParameterType::Int { .. }, ParameterValue::Int(_)) => true,
        (ParameterType::Float { .. }, ParameterValue::Float(_)) => true,
        (ParameterType::String, ParameterValue::String(_)) => true,
        (ParameterType::Bool, ParameterValue::Bool(_)) => true,
        (ParameterType::VectorInt { .. }, ParameterValue::VecInt(_)) => true,
        (ParameterType::VectorFloat { .. }, ParameterValue::VecFloat(_)) => true,
        (ParameterType::VectorString, ParameterValue::VecString(_)) => true,
        _ => false,
    }
}

/// `v`, which has the kind `t`, respects the bounds of `t` (every element
/// of a vector does).
pub open spec fn within_bounds(t: ParameterType, v: ParameterValue) -> bool {
    match (t, v) {
        (ParameterType::Int { min, max }, ParameterValue::Int(x)) => int_in_bounds(x, min, max),
        (ParameterType::Float { min, max }, ParameterValue::Float(x)) => float_in_bounds(x, min, max),
        (ParameterType::VectorInt { min, max }, ParameterValue::VecInt(xs)) =>
            forall|i: int| 0 <= i < xs@.len() ==> int_in_bounds(#[trigger] xs@[i], min, max),
        (ParameterType::VectorFloat { min, max }, ParameterValue::VecFloat(xs)) =>
            forall|i: int| 0 <= i < xs@.len() ==> float_in_bounds(#[trigger] xs@[i], min, max),
        _ => true,
    }
}

/// The unbounded kind of a value.
pub open spec fn kind_of(v: ParameterValue) -> ParameterType {
    match v {
        ParameterValue::Int(_) => ParameterType::Int { min: None, max: None },
        ParameterValue::Float(_) => ParameterType::Float { min: None, max: None },
        ParameterValue::String(_) => ParameterType::String,
        ParameterValue::Bool(_) => ParameterType::Bool,
        ParameterValue::VecInt(_) => ParameterType::VectorInt { min: None, max: None },
        ParameterValue::VecFloat(_) => ParameterType::VectorFloat { min: None, max: None },
        ParameterValue::VecString(_) => ParameterType::VectorString,
    }
}

fn is_nan_bits(bits: u32) -> (r: bool)
    ensures
        r == f32_is_nan(bits),
{
    (bits / 0x80_0000) % 256 == 255 && bits % 0x80_0000 != 0
}

fn order_key(bits: u32) -> (r: i64)
    ensures
        r == f32_order_key(bits),
{
    if bits >= 0x8000_0000 {
        -((bits - 0x8000_0000) as i64)
    } else {
        bits as i64
    }
}

fn int_within(v: i32, min: Option<i32>, max: Option<i32>) -> (r: bool)
    ensures
        r == int_in_bounds(v, min, max),
{
    let lo_ok = match min {
        Some(lo) => lo <= v,
        None => true,
    };
    let hi_ok = match max {
        Some(hi) => v <= hi,
        None => true,
    };
    lo_ok && hi_ok
}

fn float_within(v: u32, min: Option<u32>, max: Option<u32>) -> (r: bool)
    ensures
        r == float_in_bounds(v, min, max),
{
    if is_nan_bits(v) {
        return false;
    }
    let lo_ok = match min {
        Some(lo) => !is_nan_bits(lo) && order_key(lo) <= order_key(v),
        None => true,
    };
    let hi_ok = match max {
        Some(hi) => !is_nan_bits(hi) && order_key(v) <= order_key(hi),
        None => true,
    };
    lo_ok && hi_ok
}

fn all_int_within(xs: &Vec<i32>, min: Option<i32>, max: Option<i32>) -> (r: bool)
    ensures
        r == forall|k: int| 0 <= k < xs@.len() ==> int_in_bounds(#[trigger] xs@[k], min, max),
{
    let n = xs.len();
    let mut i: usize = 0;
    while i < n
        invariant
            n == xs@.len(),
            0 <= i <= n,
            forall|k: int| 0 <= k < i ==> int_in_bounds(#[trigger] xs@[k], min, max),
        decreases n - i,
    {
        if !int_within(xs[i], min, max) {
            return false;
        }
        i += 1;
    }
    true
}

fn all_float_within(xs: &Vec<u32>, min: Option<u32>, max: Option<u32>) -> (r: bool)
    ensures
        r == forall|k: int| 0 <= k < xs@.len() ==> float_in_bounds(#[trigger] xs@[k], min, max),
{
    let n = xs.len();
    let mut i: usize = 0;
    while i < n
        invariant
            n == xs@.len(),
            0 <= i <= n,
            forall|k: int| 0 <= k < i ==> float_in_bounds(#[trigger] xs@[k], min, max),
        decreases n - i,
    {
        if !float_within(xs[i], min, max) {
            return false;
        }
        i += 1;
    }
    true
}

/// Whether `v` has kind `t` and respects its bounds.
pub fn check_value(t: &ParameterType, v: &ParameterValue) -> (r: Result<(), ParameterError>)
    ensures
        !kind_matches(*t, *v) ==> r == Err::<(), ParameterError>(ParameterError::TypeMismatch),
        kind_matches(*t, *v) && !within_bounds(*t, *v) ==> r == Err::<(), ParameterError>(ParameterError::OutOfRange),
        kind_matches(*t, *v) && within_bounds(*t, *v) ==> r is Ok,
{
    match (t, v) {
        (ParameterType::Int { min, max }, ParameterValue::Int(x)) => {
            if int_within(*x, *min, *max) { Ok(()) } else { Err(ParameterError::OutOfRange) }
        },
        (ParameterType::Float { min, max }, ParameterValue::Float(x)) => {
            if float_within(*x, *min, *max) { Ok(()) } else { Err(ParameterError::OutOfRange) }
        },
        (ParameterType::String, ParameterValue::String(_)) => Ok(()),
        (ParameterType::Bool, ParameterValue::Bool(_)) => Ok(()),
        (ParameterType::VectorInt { min, max }, ParameterValue::VecInt(xs)) => {
            if all_int_within(xs, *min, *max) { Ok(()) } else { Err(ParameterError::OutOfRange) }
        },
        (ParameterType::VectorFloat { min, max }, ParameterValue::VecFloat(xs)) => {
            if all_float_within(xs, *min, *max) { Ok(()) } else { Err(ParameterError::OutOfRange) }
        },
        (ParameterType::VectorString, ParameterValue::VecString(_)) => Ok(()),
        _ => Err(ParameterError::TypeMismatch),
    }
}

/// Why a parameter update was refused.
#[derive(Debug, Clone, Copy, PartialEq, Eq, Structural)]
pub enum ParameterError {
    /// No parameter has this name.
    NotFound,
    /// The value has another kind than the parameter.
    TypeMismatch,
    /// The value lies outside the parameter's bounds.
    OutOfRange,
}

/// A named, typed parameter.
#[derive(Debug, Clone)]
pub struct Parameter {
    pub name: String,
    pub description: String,
    pub value: ParameterValue,
    pub param_type: ParameterType,
}

impl Parameter {
    /// A parameter of the value's kind, without bounds.
    pub fn new(name: &str, description: &str, value: ParameterValue) -> (r: Self)
        ensures
            r.name@ == name@ && r.description@ == description@,
            r.value == value,
            r.param_type == kind_of(value),
    {
        let param_type = match &value {
            ParameterValue::Int(_) => ParameterType::Int { min: None, max: None },
            ParameterValue::Float(_) => ParameterType::Float { min: None, max: None },
            ParameterValue::String(_) => ParameterType::String,
            ParameterValue::Bool(_) => ParameterType::Bool,
            ParameterValue::VecInt(_) => ParameterType::VectorInt { min: None, max: None },
            ParameterValue::VecFloat(_) => ParameterType::VectorFloat { min: None, max: None },
            ParameterValue::VecString(_) => ParameterType::VectorString,
        };
        Parameter { name: name.to_string(), description: description.to_string(), value, param_type }
    }

    /// The same parameter with the given kind and bounds.
    pub fn with_type(self, param_type: ParameterType) -> (r: Self)
        ensures
            r.param_type == param_type,
            r.name == self.name && r.description == self.description && r.value == self.value,
    {
        Parameter { param_type, ..self }
    }
}

/// Position of the first parameter named `name`.
pub open spec fn param_index(ps: Seq<Parameter>, name: Seq<char>) -> Option<int>
    decreases ps.len(),
{
    if ps.len() == 0 {
        None
    } else if ps.last().name@ == name && param_index(ps.drop_last(), name) is None {
        Some(ps.len() - 1)
    } else {
        param_index(ps.drop_last(), name)
    }
}

/// The parameters of a module, keyed by name; names are unique.
#[derive(Debug, Clone)]
pub struct ParameterSet {
    parameters: Vec<Parameter>,
}

impl ParameterSet {
    pub closed spec fn params(&self) -> Seq<Parameter> {
        self.parameters@
    }

    pub open spec fn wf(&self) -> bool {
        forall|a: int, b: int| 0 <= a < b < self.params().len()
            ==> (#[trigger] self.params()[a]).name@ != (#[trigger] self.params()[b]).name@
    }

    /// The parameter named `name`, if any.
    pub open spec fn lookup(&self, name: Seq<char>) -> Option<Parameter> {
        if exists|k: int| 0 <= k < self.params().len() && (#[trigger] self.params()[k]).name@ == name {
            Some(self.params()[choose|k: int| 0 <= k < self.params().len() && (#[trigger] self.params()[k]).name@ == name])
        } else {
            None
        }
    }

    proof fn lemma_lookup_at(&self, k: int)
        requires
            self.wf(),
            0 <= k < self.params().len(),
        ensures
            self.lookup(self.params()[k].name@) == Some(self.params()[k]),
    {
        let n = self.params()[k].name@;
        let c = choose|c: int| 0 <= c < self.params().len() && (#[trigger] self.params()[c]).name@ == n;
        if c < k {
            assert(self.params()[c].name@ != self.params()[k].name@);
        } else if k < c {
            assert(self.params()[k].name@ != self.params()[c].name@);
        }
    }

    pub fn new() -> (r: Self)
        ensures
            r.wf(),
            r.params().len() == 0,
    {
        ParameterSet { parameters: Vec::new() }
    }

    fn position(&self, name: &str) -> (r: Option<usize>)
        requires
            self.wf(),
        ensures
            r matches Some(k) ==> k < self.params().len() && self.params()[k as int].name@ == name@
                && self.lookup(name@) == Some(self.params()[k as int]),
            r is None <==> self.lookup(name@) is None,
    {
        let n = self.parameters.len();
        let mut k: usize = 0;
        while k < n
            invariant
                self.wf(),
                n == self.parameters@.len(),
                0 <= k <= n,
                forall|x: int| 0 <= x < k ==> (#[trigger] self.parameters@[x]).name@ != name@,
            decreases n - k,
        {
            if string_eq(&self.parameters[k].name, name) {
                proof {
                    self.lemma_lookup_at(k as int);
                }
                return Some(k);
            }
            k += 1;
        }
        None
    }

    /// Adds a parameter, replacing one of the same name.
    pub fn add(&mut self, param: Parameter)
        requires
            old(self).wf(),
        ensures
            final(self).wf(),
            final(self).lookup(param.name@) == Some(param),
            forall|n: Seq<char>| n != param.name@ ==> final(self).lookup(n) == old(self).lookup(n),
    {
        let ghost pname = param.name@;
        let ghost p = param;
        let ghost old_ps = self.parameters@;
        match self.position(param.name.as_str()) {
            Some(k) => {
                self.parameters.set(k, param);
                proof {
                    assert forall|a: int, b: int| 0 <= a < b < self.parameters@.len()
                        implies (#[trigger] self.parameters@[a]).name@ != (#[trigger] self.parameters@[b]).name@ by {
                        assert(old_ps[a].name@ != old_ps[b].name@);
                    }
                    self.lemma_lookup_at(k as int);
                    assert forall|n: Seq<char>| n != pname implies self.lookup(n) == old(self).lookup(n) by {
                        if exists|x: int| 0 <= x < old_ps.len() && (#[trigger] old_ps[x]).name@ == n {
                            let x = choose|x: int| 0 <= x < old_ps.len() && (#[trigger] old_ps[x]).name@ == n;
                            old(self).lemma_lookup_at(x);
                            assert(self.parameters@[x] == old_ps[x]);
                            self.lemma_lookup_at(x);
                        } else {
                            assert forall|x: int| 0 <= x < self.parameters@.len() implies (#[trigger] self.parameters@[x]).name@ != n by {
                                if x != k {
                                    assert(self.parameters@[x] == old_ps[x]);
                                }
                            }
                        }
                    }
                }
            },
            None => {
                self.parameters.push(param);
                proof {
                    assert forall|a: int, b: int| 0 <= a < b < self.parameters@.len()
                        implies (#[trigger] self.parameters@[a]).name@ != (#[trigger] self.parameters@[b]).name@ by {
                        if b == old_ps.len() {
                            assert(old_ps[a].name@ != pname);
                        } else {
                            assert(old_ps[a].name@ != old_ps[b].name@);
                        }
                    }
                    self.lemma_lookup_at(old_ps.len() as int);
                    assert forall|n: Seq<char>| n != pname implies self.lookup(n) == old(self).lookup(n) by {
                        if exists|x: int| 0 <= x < old_ps.len() && (#[trigger] old_ps[x]).name@ == n {
                            let x = choose|x: int| 0 <= x < old_ps.len() && (#[trigger] old_ps[x]).name@ == n;
                            old(self).lemma_lookup_at(x);
                            assert(self.parameters@[x] == old_ps[x]);
                            self.lemma_lookup_at(x);
                        } else {
                            assert forall|x: int| 0 <= x < self.parameters@.len() implies (#[trigger] self.parameters@[x]).name@ != n by {
                                if x < old_ps.len() {
                                    assert(self.parameters@[x] == old_ps[x]);
                                }
                            }
                        }
                    }
                }
            },
        }
    }

    pub fn get(&self, name: &str) -> (r: Option<&Parameter>)
        requires
            self.wf(),
        ensures
            r matches Some(p) ==> self.lookup(name@) == Some(*p),
            r is None <==> self.lookup(name@) is None,
    {
        match self.position(name) {
            Some(k) => Some(&self.parameters[k]),
            None => None,
        }
    }

    /// Sets the value of parameter `name`, after checking its kind and
    /// bounds. Nothing changes on failure.
    pub fn set_value(&mut self, name: &str, value: ParameterValue) -> (r: Result<(), ParameterError>)
        requires
            old(self).wf(),
        ensures
            final(self).wf(),
            old(self).lookup(name@) is None ==> r == Err::<(), ParameterError>(ParameterError::NotFound),
            old(self).lookup(name@) matches Some(p) ==> {
                &&& (!kind_matches(p.param_type, value) ==> r == Err::<(), ParameterError>(ParameterError::TypeMismatch))
                &&& (kind_matches(p.param_type, value) && !within_bounds(p.param_type, value)
                    ==> r == Err::<(), ParameterError>(ParameterError::OutOfRange))
                &&& (kind_matches(p.param_type, value) && within_bounds(p.param_type, value) ==> r is Ok)
            },
            r is Err ==> *final(self) == *old(self),
            r is Ok ==> final(self).lookup(name@) == Some(Parameter { value, ..old(self).lookup(name@).unwrap() }),
            r is Ok ==> forall|n: Seq<char>| n != name@ ==> final(self).lookup(n) == old(self).lookup(n),
    {
        match self.position(name) {
            None => Err(ParameterError::NotFound),
            Some(k) => {
                check_value(&self.parameters[k].param_type, &value)?;
                let ghost old_ps = self.parameters@;
                let ghost v = value;
                self.parameters[k].value = value;
                proof {
                    assert forall|a: int, b: int| 0 <= a < b < self.parameters@.len()
                        implies (#[trigger] self.parameters@[a]).name@ != (#[trigger] self.parameters@[b]).name@ by {
                        assert(old_ps[a].name@ != old_ps[b].name@);
                    }
                    self.lemma_lookup_at(k as int);
                    assert forall|n: Seq<char>| n != name@ implies self.lookup(n) == old(self).lookup(n) by {
                        if exists|x: int| 0 <= x < old_ps.len() && (#[trigger] old_ps[x]).name@ == n {
                            let x = choose|x: int| 0 <= x < old_ps.len() && (#[trigger] old_ps[x]).name@ == n;
                            old(self).lemma_lookup_at(x);
                            assert(self.parameters@[x] == old_ps[x]);
                            self.lemma_lookup_at(x);
                        } else {
                            assert forall|x: int| 0 <= x < self.parameters@.len() implies (#[trigger] self.parameters@[x]).name@ != n by {
                                if x != k {
                                    assert(self.parameters@[x] == old_ps[x]);
                                }
                            }
                        }
                    }
                }
                Ok(())
            },
        }
    }

    /// Names of all parameters.
    pub fn names(&self) -> (r: Vec<String>)
        ensures
            r@.len() == self.params().len(),
            forall|k: int| 0 <= k < r@.len() ==> (#[trigger] r@[k])@ == self.params()[k].name@,
    {
        let n = self.parameters.len();
        let mut out: Vec<String> = Vec::new();
        let mut k: usize = 0;
        while k < n
            invariant
                n == self.parameters@.len(),
                0 <= k <= n,
                out@.len() == k,
                forall|x: int| 0 <= x < k ==> (#[trigger] out@[x])@ == self.parameters@[x].name@,
            decreases n - k,
        {
            out.push(self.parameters[k].name.clone());
            k += 1;
        }
        out
    }
}

/// Direction of a port.
#[derive(Debug, Clone, Copy, PartialEq, Eq, Structural)]
pub enum PortType {
    Input,
    Output,
}

/// A named input or output endpoint of a module.
#[derive(Debug, Clone)]
pub struct Port {
    pub name: String,
    pub description: String,
    pub port_type: PortType,
    pub optional: bool,
}

impl Port {
    pub fn new_input(name: &str, description: &str) -> (r: Self)
        ensures
            r.name@ == name@ && r.description@ == description@,
            r.port_type == PortType::Input && !r.optional,
    {
        Port { name: name.to_string(), description: description.to_string(), port_type: PortType::Input, optional: false }
    }

    pub fn new_output(name: &str, description: &str) -> (r: Self)
        ensures
            r.name@ == name@ && r.description@ == description@,
            r.port_type == PortType::Output && !r.optional,
    {
        Port { name: name.to_string(), description: description.to_string(), port_type: PortType::Output, optional: false }
    }

    pub fn optional(self) -> (r: Self)
        ensures
            r.optional,
            r.name == self.name && r.description == self.description && r.port_type == self.port_type,
    {
        Port { optional: true, ..self }
    }
}

/// The ports of a module, keyed by name; names are unique.
#[derive(Debug, Clone)]
pub struct PortSet {
    ports: Vec<Port>,
}

impl PortSet {
    pub closed spec fn ports(&self) -> Seq<Port> {
        self.ports@
    }

    pub open spec fn wf(&self) -> bool {
        forall|a: int, b: int| 0 <= a < b < self.ports().len()
            ==> (#[trigger] self.ports()[a]).name@ != (#[trigger] self.ports()[b]).name@
    }

    /// The port named `name`, if any.
    pub open spec fn lookup(&self, name: Seq<char>) -> Option<Port> {
        if exists|k: int| 0 <= k < self.ports().len() && (#[trigger] self.ports()[k]).name@ == name {
            Some(self.ports()[choose|k: int| 0 <= k < self.ports().len() && (#[trigger] self.ports()[k]).name@ == name])
        } else {
            None
        }
    }

    proof fn lemma_lookup_at(&self, k: int)
        requires
            self.wf(),
            0 <= k < self.ports().len(),
        ensures
            self.lookup(self.ports()[k].name@) == Some(self.ports()[k]),
    {
        let n = self.ports()[k].name@;
        let c = choose|c: int| 0 <= c < self.ports().len() && (#[trigger] self.ports()[c]).name@ == n;
        if c < k {
            assert(self.ports()[c].name@ != self.ports()[k].name@);
        } else if k < c {
            assert(self.ports()[k].name@ != self.ports()[c].name@);
        }
    }

    pub fn new() -> (r: Self)
        ensures
            r.wf(),
            r.ports().len() == 0,
    {
        PortSet { ports: Vec::new() }
    }

    fn position(&self, name: &str) -> (r: Option<usize>)
        requires
            self.wf(),
        ensures
            r matches Some(k) ==> k < self.ports().len() && self.lookup(name@) == Some(self.ports()[k as int]),
            r is None <==> self.lookup(name@) is None,
    {
        let n = self.ports.len();
        let mut k: usize = 0;
        while k < n
            invariant
                self.wf(),
                n == self.ports@.len(),
                0 <= k <= n,
                forall|x: int| 0 <= x < k ==> (#[trigger] self.ports@[x]).name@ != name@,
            decreases n - k,
        {
            if string_eq(&self.ports[k].name, name) {
                proof {
                    self.lemma_lookup_at(k as int);
                }
                return Some(k);
            }
            k += 1;
        }
        None
    }

    /// Adds a port, replacing one of the same name.
    pub fn add(&mut self, port: Port)
        requires
            old(self).wf(),
        ensures
            final(self).wf(),
            final(self).lookup(port.name@) == Some(port),
            forall|n: Seq<char>| n != port.name@ ==> final(self).lookup(n) == old(self).lookup(n),
    {
        let ghost pname = port.name@;
        let ghost old_ps = self.ports@;
        match self.position(port.name.as_str()) {
            Some(k) => {
                proof {
                    assert(old_ps[k as int].name@ == pname) by {
                        let c = choose|c: int| 0 <= c < old_ps.len() && (#[trigger] old_ps[c]).name@ == pname;
                    }
                }
                self.ports.set(k, port);
                proof {
                    assert forall|a: int, b: int| 0 <= a < b < self.ports@.len()
                        implies (#[trigger] self.ports@[a]).name@ != (#[trigger] self.ports@[b]).name@ by {
                        assert(old_ps[a].name@ != old_ps[b].name@);
                    }
                    self.lemma_lookup_at(k as int);
                    assert forall|n: Seq<char>| n != pname implies self.lookup(n) == old(self).lookup(n) by {
                        if exists|x: int| 0 <= x < old_ps.len() && (#[trigger] old_ps[x]).name@ == n {
                            let x = choose|x: int| 0 <= x < old_ps.len() && (#[trigger] old_ps[x]).name@ == n;
                            old(self).lemma_lookup_at(x);
                            assert(self.ports@[x] == old_ps[x]);
                            self.lemma_lookup_at(x);
                        } else {
                            assert forall|x: int| 0 <= x < self.ports@.len() implies (#[trigger] self.ports@[x]).name@ != n by {
                                if x != k {
                                    assert(self.ports@[x] == old_ps[x]);
                                }
                            }
                        }
                    }
                }
            },
            None => {
                self.ports.push(port);
                proof {
                    assert forall|a: int, b: int| 0 <= a < b < self.ports@.len()
                        implies (#[trigger] self.ports@[a]).name@ != (#[trigger] self.ports@[b]).name@ by {
                        if b == old_ps.len() {
                            assert(old_ps[a].name@ != pname);
                        } else {
                            assert(old_ps[a].name@ != old_ps[b].name@);
                        }
                    }
                    self.lemma_lookup_at(old_ps.len() as int);
                    assert forall|n: Seq<char>| n != pname implies self.lookup(n) == old(self).lookup(n) by {
                        if exists|x: int| 0 <= x < old_ps.len() && (#[trigger] old_ps[x]).name@ == n {
                            let x = choose|x: int| 0 <= x < old_ps.len() && (#[trigger] old_ps[x]).name@ == n;
                            old(self).lemma_lookup_at(x);
                            assert(self.ports@[x] == old_ps[x]);
                            self.lemma_lookup_at(x);
                        } else {
                            assert forall|x: int| 0 <= x < self.ports@.len() implies (#[trigger] self.ports@[x]).name@ != n by {
                                if x < old_ps.len() {
                                    assert(self.ports@[x] == old_ps[x]);
                                }
                            }
                        }
                    }
                }
            },
        }
    }

    pub fn get(&self, name: &str) -> (r: Option<&Port>)
        requires
            self.wf(),
        ensures
            r matches Some(p) ==> self.lookup(name@) == Some(*p),
            r is None <==> self.lookup(name@) is None,
    {
        match self.position(name) {
            Some(k) => Some(&self.ports[k]),
            None => None,
        }
    }

    /// The ports of direction `dir`, in the order they were added.
    pub fn of_type(&self, dir: PortType) -> (r: Vec<&Port>)
        requires
            self.wf(),
        ensures
            forall|k: int| 0 <= k < r@.len() ==> (#[trigger] r@[k]).port_type == dir && self.ports().contains(*r@[k]),
            forall|k: int| 0 <= k < self.ports().len() && (#[trigger] self.ports()[k]).port_type == dir
                ==> r@.contains(&self.ports()[k]),
            forall|i: int, j: int| 0 <= i < j < r@.len() ==> (#[trigger] r@[i]).name@ != (#[trigger] r@[j]).name@,
    {
        let n = self.ports.len();
        let mut out: Vec<&Port> = Vec::new();
        let ghost mut ix: Seq<int> = Seq::empty();
        let mut k: usize = 0;
        while k < n
            invariant
                self.wf(),
                n == self.ports@.len(),
                0 <= k <= n,
                ix.len() == out@.len(),
                forall|x: int| 0 <= x < out@.len() ==> 0 <= #[trigger] ix[x] < k && *out@[x] == self.ports@[ix[x]],
                forall|x: int, y: int| 0 <= x < y < out@.len() ==> #[trigger] ix[x] < #[trigger] ix[y],
                forall|x: int| 0 <= x < out@.len() ==> (#[trigger] out@[x]).port_type == dir && self.ports@.contains(*out@[x]),
                forall|x: int| 0 <= x < k && (#[trigger] self.ports@[x]).port_type == dir ==> out@.contains(&self.ports@[x]),
            decreases n - k,
        {
            if self.ports[k].port_type == dir {
                let ghost prev = out@;
                let ghost pix = ix;
                out.push(&self.ports[k]);
                proof {
                    ix = ix.push(k as int);
                    assert(out@[prev.len() as int] == &self.ports@[k as int]);
                    assert forall|x: int| 0 <= x < k + 1 && (#[trigger] self.ports@[x]).port_type == dir
                        implies out@.contains(&self.ports@[x]) by {
                        if x < k {
                            let w = choose|w: int| 0 <= w < prev.len() && prev[w] == &self.ports@[x];
                            assert(out@[w] == prev[w]);
                        }
                    }
                    assert forall|x: int| 0 <= x < out@.len() implies (#[trigger] out@[x]).port_type == dir
                        && self.ports@.contains(*out@[x]) by {
                        if x < prev.len() {
                            assert(out@[x] == prev[x]);
                        } else {
                            assert(self.ports@[k as int] == *out@[x]);
                        }
                    }
                    assert forall|x: int| 0 <= x < out@.len() implies 0 <= #[trigger] ix[x] < k + 1 && *out@[x] == self.ports@[ix[x]] by {
                        if x < prev.len() {
                            assert(out@[x] == prev[x]);
                            assert(ix[x] == pix[x]);
                        }
                    }
                    assert forall|x: int, y: int| 0 <= x < y < out@.len() implies #[trigger] ix[x] < #[trigger] ix[y] by {
                        if y < prev.len() {
                            assert(ix[x] == pix[x] && ix[y] == pix[y]);
                        } else {
                            assert(ix[x] == pix[x]);
                        }
                    }
                }
            }
            k += 1;
        }
        proof {
            assert forall|i: int, j: int| 0 <= i < j < out@.len() implies (#[trigger] out@[i]).name@ != (#[trigger] out@[j]).name@ by {
                assert(ix[i] < ix[j]);
                assert(self.ports@[ix[i]].name@ != self.ports@[ix[j]].name@);
            }
        }
        out
    }

    pub fn inputs(&self) -> (r: Vec<&Port>)
        requires
            self.wf(),
        ensures
            forall|i: int, j: int| 0 <= i < j < r@.len() ==> (#[trigger] r@[i]).name@ != (#[trigger] r@[j]).name@,
            forall|k: int| 0 <= k < r@.len() ==> (#[trigger] r@[k]).port_type == PortType::Input && self.ports().contains(*r@[k]),
            forall|k: int| 0 <= k < self.ports().len() && (#[trigger] self.ports()[k]).port_type == PortType::Input
                ==> r@.contains(&self.ports()[k]),
    {
        self.of_type(PortType::Input)
    }

    pub fn outputs(&self) -> (r: Vec<&Port>)
        requires
            self.wf(),
        ensures
            forall|i: int, j: int| 0 <= i < j < r@.len() ==> (#[trigger] r@[i]).name@ != (#[trigger] r@[j]).name@,
            forall|k: int| 0 <= k < r@.len() ==> (#[trigger] r@[k]).port_type == PortType::Output && self.ports().contains(*r@[k]),
            forall|k: int| 0 <= k < self.ports().len() && (#[trigger] self.ports()[k]).port_type == PortType::Output
                ==> r@.contains(&self.ports()[k]),
    {
        self.of_type(PortType::Output)
    }

    pub fn names(&self) -> (r: Vec<String>)
        ensures
            r@.len() == self.ports().len(),
            forall|k: int| 0 <= k < r@.len() ==> (#[trigger] r@[k])@ == self.ports()[k].name@,
    {
        let n = self.ports.len();
        let mut out: Vec<String> = Vec::new();
        let mut k: usize = 0;
        while k < n
            invariant
                n == self.ports@.len(),
                0 <= k <= n,
                out@.len() == k,
                forall|x: int| 0 <= x < k ==> (#[trigger] out@[x])@ == self.ports@[x].name@,
            decreases n - k,
        {
            out.push(self.ports[k].name.clone());
            k += 1;
        }
        out
    }
}

} // verus!
