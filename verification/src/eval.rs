//! Tree-walking evaluator.
//!
//! Strings are UTF-8 byte sequences.  Printing appends to the machine's
//! output buffer.  Builtins that need the host (files, argv, exit, shell)
//! stop the evaluation with a [`HostRequest`]; the host answers it and
//! evaluation is replayed from the start with the answers so far
//! ([`Machine::with_replies`]).
use vstd::prelude::*;
use std::rc::Rc;
use crate::ast::{BinOp, Def, Expr, Item, Lit, Pattern, Program, clone_expr, clone_pattern, clone_patterns};
use crate::parser::wrap_params;
use crate::codegen::last_entry;
use crate::text::{chars_of, concat, concat3, i64_to_decimal, string_of};

verus! {

// ---------- values ----------

/// Runtime values.
pub enum Value {
    Int(i64),
    Bool(bool),
    Str(Rc<Vec<u8>>),
    Unit,
    Tuple(Rc<Vec<Value>>),
    Fun(Rc<Callable>),
    /// fully applied constructor value (also lists: Nil / Cons)
    Adt(Rc<CtorVal>),
}

/// A closure: one parameter pattern, a body and the captured environment.
pub struct ClosureData {
    /// members of the recursive group the closure belongs to; they are
    /// bound into the environment at every call
    pub group: Option<Rc<Vec<(String, Value)>>>,
    pub pat: Pattern,
    pub body: Rc<Expr>,
    pub env: Env,
}

/// Things that can be applied.
pub enum Callable {
    Closure(ClosureData),
    Builtin { kind: BuiltinKind, args: Vec<Value> },
    CtorPartial { name: String, tag: u32, arity: usize, args: Vec<Value> },
}

/// A constructor applied to all of its fields.
pub struct CtorVal {
    pub name: String,
    pub tag: u32,
    pub fields: Vec<Value>,
}

/// Copy of a value (sharing its heap parts).
pub fn clone_value(v: &Value) -> (r: Value)
    ensures
        r == *v,
{
    match v {
        Value::Int(n) => Value::Int(*n),
        Value::Bool(b) => Value::Bool(*b),
        Value::Str(s) => Value::Str(Rc::clone(s)),
        Value::Unit => Value::Unit,
        Value::Tuple(t) => Value::Tuple(Rc::clone(t)),
        Value::Fun(f) => Value::Fun(Rc::clone(f)),
        Value::Adt(a) => Value::Adt(Rc::clone(a)),
    }
}

impl Clone for Value {
    fn clone(&self) -> (r: Self)
        ensures
            r == *self,
    {
        clone_value(self)
    }
}

/// Copy of a list of values.
pub fn clone_values(vs: &Vec<Value>) -> (r: Vec<Value>)
    ensures
        r@ == vs@,
{
    let mut out: Vec<Value> = Vec::new();
    let mut i: usize = 0;
    while i < vs.len()
        invariant
            i <= vs.len(),
            out@ == vs@.subrange(0, i as int),
        decreases vs.len() - i,
    {
        out.push(clone_value(&vs[i]));
        proof {
            assert(out@ =~= vs@.subrange(0, i + 1));
        }
        i = i + 1;
    }
    proof {
        assert(vs@.subrange(0, vs.len() as int) =~= vs@);
    }
    out
}

// ---------- environment ----------

/// A persistent environment: a chain of bindings, newest first.
pub struct Env(pub Option<Rc<EnvNode>>);

/// One binding of an environment chain.
pub struct EnvNode {
    pub parent: Env,
    pub name: String,
    pub val: Value,
}

/// The value bound to `name` in the chain (newest binding wins).
pub open spec fn env_lookup(env: Env, name: Seq<char>) -> Option<Value>
    decreases env,
{
    match env.0 {
        Some(node) => {
            if node.name@ == name {
                Some(node.val)
            } else {
                env_lookup(node.parent, name)
            }
        }
        None => None,
    }
}

impl Env {
    /// The empty environment.
    pub fn empty() -> (e: Env)
        ensures
            forall|n: Seq<char>| env_lookup(e, n) is None,
    {
        Env(None)
    }

    /// Copy of the environment (sharing the chain).
    pub fn share(&self) -> (e: Env)
        ensures
            e == *self,
    {
        match &self.0 {
            Some(n) => Env(Some(Rc::clone(n))),
            None => Env(None),
        }
    }

    /// `self` extended with `name = val`.
    pub fn bind(&self, name: &str, val: Value) -> (e: Env)
        ensures
            env_lookup(e, name@) == Some(val),
            forall|n: Seq<char>| n != name@ ==> env_lookup(e, n) == env_lookup(*self, n),
    {
        Env(Some(Rc::new(EnvNode { parent: self.share(), name: String::from_str(name), val })))
    }

    /// The value bound to `name`, if any.
    pub fn lookup(&self, name: &str) -> (r: Option<Value>)
        ensures
            r == env_lookup(*self, name@),
    {
        let n = String::from_str(name);
        self.lookup_string(&n)
    }

    /// The value bound to `name`, if any.
    pub fn lookup_string(&self, name: &String) -> (r: Option<Value>)
        ensures
            r == env_lookup(*self, name@),
        decreases self,
    {
        match &self.0 {
            Some(node) => {
                if node.name == *name {
                    Some(clone_value(&node.val))
                } else {
                    node.parent.lookup_string(name)
                }
            }
            None => None,
        }
    }
}

} // verus!

verus! {

// ---------- builtins ----------

/// The built-in functions.
#[derive(Debug, Clone, Copy, PartialEq, Eq, Structural)]
pub enum BuiltinKind {
    PrintInt,
    PrintStr,
    IntToStr,
    BoolToStr,
    StrLen,
    StrConcat,
    ReadFile,
    WriteFile,
    Exit,
    Chr,
    Ord,
    StrGet,
    Substring,
    StrToInt,
    Error,
    Show,
    Argv,
    System,
}

/// Number of arguments a builtin takes before it runs.
pub open spec fn builtin_arity(k: BuiltinKind) -> nat {
    match k {
        BuiltinKind::WriteFile => 2,
        BuiltinKind::StrConcat => 2,
        BuiltinKind::StrGet => 2,
        BuiltinKind::Substring => 3,
        _ => 1,
    }
}

/// The source name of a builtin.
pub open spec fn builtin_name(k: BuiltinKind) -> Seq<char> {
    match k {
        BuiltinKind::PrintInt => "print_int"@,
        BuiltinKind::PrintStr => "print_string"@,
        BuiltinKind::IntToStr => "int_to_string"@,
        BuiltinKind::BoolToStr => "bool_to_string"@,
        BuiltinKind::StrLen => "string_length"@,
        BuiltinKind::StrConcat => "str_concat"@,
        BuiltinKind::ReadFile => "read_file"@,
        BuiltinKind::WriteFile => "write_file"@,
        BuiltinKind::Exit => "exit"@,
        BuiltinKind::Chr => "chr"@,
        BuiltinKind::Ord => "ord"@,
        BuiltinKind::StrGet => "string_get"@,
        BuiltinKind::Substring => "substring"@,
        BuiltinKind::StrToInt => "string_to_int"@,
        BuiltinKind::Error => "error"@,
        BuiltinKind::Show => "show"@,
        BuiltinKind::Argv => "argv"@,
        BuiltinKind::System => "system"@,
    }
}

/// No builtin is called `main`.
proof fn lemma_no_builtin_main(k: BuiltinKind)
    ensures
        builtin_name(k) != "main"@,
{
    reveal_strlit("main");
    assert("main"@.len() == 4);
    match k {
        BuiltinKind::PrintInt => {
            reveal_strlit("print_int");
            assert("print_int"@.len() == 9);
            assert(builtin_name(k) == "print_int"@);
            assert(builtin_name(k).len() != "main"@.len());
        },
        BuiltinKind::PrintStr => {
            reveal_strlit("print_string");
            assert("print_string"@.len() == 12);
            assert(builtin_name(k) == "print_string"@);
            assert(builtin_name(k).len() != "main"@.len());
        },
        BuiltinKind::IntToStr => {
            reveal_strlit("int_to_string");
            assert("int_to_string"@.len() == 13);
            assert(builtin_name(k) == "int_to_string"@);
            assert(builtin_name(k).len() != "main"@.len());
        },
        BuiltinKind::BoolToStr => {
            reveal_strlit("bool_to_string");
            assert("bool_to_string"@.len() == 14);
            assert(builtin_name(k) == "bool_to_string"@);
            assert(builtin_name(k).len() != "main"@.len());
        },
        BuiltinKind::StrLen => {
            reveal_strlit("string_length");
            assert("string_length"@.len() == 13);
            assert(builtin_name(k) == "string_length"@);
            assert(builtin_name(k).len() != "main"@.len());
        },
        BuiltinKind::StrConcat => {
            reveal_strlit("str_concat");
            assert("str_concat"@.len() == 10);
            assert(builtin_name(k) == "str_concat"@);
            assert(builtin_name(k).len() != "main"@.len());
        },
        BuiltinKind::ReadFile => {
            reveal_strlit("read_file");
            assert("read_file"@.len() == 9);
            assert(builtin_name(k) == "read_file"@);
            assert(builtin_name(k).len() != "main"@.len());
        },
        BuiltinKind::WriteFile => {
            reveal_strlit("write_file");
            assert("write_file"@.len() == 10);
            assert(builtin_name(k) == "write_file"@);
            assert(builtin_name(k).len() != "main"@.len());
        },
        BuiltinKind::Exit => {
            reveal_strlit("exit");
            assert("exit"@[0] != "main"@[0]);
        },
        BuiltinKind::Chr => {
            reveal_strlit("chr");
            assert("chr"@.len() == 3);
            assert(builtin_name(k) == "chr"@);
            assert(builtin_name(k).len() != "main"@.len());
        },
        BuiltinKind::Ord => {
            reveal_strlit("ord");
            assert("ord"@.len() == 3);
            assert(builtin_name(k) == "ord"@);
            assert(builtin_name(k).len() != "main"@.len());
        },
        BuiltinKind::StrGet => {
            reveal_strlit("string_get");
            assert("string_get"@.len() == 10);
            assert(builtin_name(k) == "string_get"@);
            assert(builtin_name(k).len() != "main"@.len());
        },
        BuiltinKind::Substring => {
            reveal_strlit("substring");
            assert("substring"@.len() == 9);
            assert(builtin_name(k) == "substring"@);
            assert(builtin_name(k).len() != "main"@.len());
        },
        BuiltinKind::StrToInt => {
            reveal_strlit("string_to_int");
            assert("string_to_int"@.len() == 13);
            assert(builtin_name(k) == "string_to_int"@);
            assert(builtin_name(k).len() != "main"@.len());
        },
        BuiltinKind::Error => {
            reveal_strlit("error");
            assert("error"@.len() == 5);
            assert(builtin_name(k) == "error"@);
            assert(builtin_name(k).len() != "main"@.len());
        },
        BuiltinKind::Show => {
            reveal_strlit("show");
            assert("show"@[0] != "main"@[0]);
        },
        BuiltinKind::Argv => {
            reveal_strlit("argv");
            assert("argv"@[0] != "main"@[0]);
        },
        BuiltinKind::System => {
            reveal_strlit("system");
            assert("system"@.len() == 6);
            assert(builtin_name(k) == "system"@);
            assert(builtin_name(k).len() != "main"@.len());
        },
    }
}

impl BuiltinKind {
    /// Number of arguments the builtin takes before it runs.
    pub fn arity(self) -> (n: usize)
        ensures
            n == builtin_arity(self),
    {
        match self {
            BuiltinKind::WriteFile => 2,
            BuiltinKind::StrConcat => 2,
            BuiltinKind::StrGet => 2,
            BuiltinKind::Substring => 3,
            _ => 1,
        }
    }

    /// The source name of the builtin.
    pub fn name(self) -> (s: &'static str)
        ensures
            s@ == builtin_name(self),
    {
        match self {
            BuiltinKind::PrintInt => "print_int",
            BuiltinKind::PrintStr => "print_string",
            BuiltinKind::IntToStr => "int_to_string",
            BuiltinKind::BoolToStr => "bool_to_string",
            BuiltinKind::StrLen => "string_length",
            BuiltinKind::StrConcat => "str_concat",
            BuiltinKind::ReadFile => "read_file",
            BuiltinKind::WriteFile => "write_file",
            BuiltinKind::Exit => "exit",
            BuiltinKind::Chr => "chr",
            BuiltinKind::Ord => "ord",
            BuiltinKind::StrGet => "string_get",
            BuiltinKind::Substring => "substring",
            BuiltinKind::StrToInt => "string_to_int",
            BuiltinKind::Error => "error",
            BuiltinKind::Show => "show",
            BuiltinKind::Argv => "argv",
            BuiltinKind::System => "system",
        }
    }

    /// All builtins, in the order their names are bound.
    pub fn all() -> (v: Vec<BuiltinKind>)
        ensures
            v.len() == 18,
    {
        vec![
            BuiltinKind::PrintInt,
            BuiltinKind::PrintStr,
            BuiltinKind::IntToStr,
            BuiltinKind::BoolToStr,
            BuiltinKind::StrLen,
            BuiltinKind::StrConcat,
            BuiltinKind::ReadFile,
            BuiltinKind::WriteFile,
            BuiltinKind::Exit,
            BuiltinKind::Chr,
            BuiltinKind::Ord,
            BuiltinKind::StrGet,
            BuiltinKind::Substring,
            BuiltinKind::StrToInt,
            BuiltinKind::Error,
            BuiltinKind::Show,
            BuiltinKind::Argv,
            BuiltinKind::System,
        ]
    }
}

// ---------- host interaction ----------

/// Work only the host can do.
#[derive(Debug, Clone)]
pub enum HostRequest {
    ReadFile(Vec<u8>),
    WriteFile(Vec<u8>, Vec<u8>),
    /// the program argument with this index (0 is the script itself)
    Argv(i64),
    System(Vec<u8>),
}

/// The host's answer to a [`HostRequest`].
#[derive(Debug, Clone)]
pub enum HostReply {
    /// file contents, or an argument
    Text(Vec<u8>),
    /// a write that succeeded
    Done,
    /// a shell command's exit status
    Code(i64),
    /// a failed file operation, with the system's message
    Failed(String),
}

/// Why an evaluation stopped without a value.
pub enum Stop {
    /// a runtime error, with its message
    Error(String),
    /// the program needs the host to answer this request
    NeedHost(HostRequest),
    /// the program called `exit`
    Exit(i64),
}

/// Where printed output goes.
#[derive(Clone, Copy, PartialEq, Eq, Structural)]
pub enum OutSink {
    Stdout,
    Buffer,
}

} // verus!

verus! {

/// Recursion budget of one evaluation (nesting depth of evaluation steps).
pub const EVAL_DEPTH: u64 = 100000000;

type EResult = Result<Value, Stop>;

fn stop(msg: String) -> (s: Stop)
    ensures
        s == Stop::Error(msg),
{
    Stop::Error(msg)
}

fn err_str(s: &str) -> (st: Stop)
    ensures
        st matches Stop::Error(m) && m@ == s@,
{
    Stop::Error(String::from_str(s))
}

/// A `String` from runtime bytes (which are always UTF-8 in practice).
fn text_of_bytes(b: &Vec<u8>) -> (s: String)
    ensures
        vstd::utf8::valid_utf8(b@) ==> s@ == vstd::utf8::decode_utf8(b@),
{
    match crate::strings::string_from_utf8(b) {
        Some(s) => s,
        None => String::from_str("<invalid utf-8>"),
    }
}

fn bytes_of_str(s: &str) -> (b: Vec<u8>)
    ensures
        b@ == vstd::utf8::encode_utf8(s@),
{
    crate::strings::utf8_of(s)
}

/// Evaluation state: constructor table, printed output and the host's
/// answers that have not been used yet.
pub struct Machine {
    pub out: OutSink,
    /// constructor name -> (tag, arity)
    pub ctors: Vec<(String, (u32, usize))>,
    /// everything printed so far
    pub output: Vec<u8>,
    /// host answers not used yet, oldest first
    pub replies: Vec<HostReply>,
}

/// The constructor entry for `name`: the first one in the table.
pub open spec fn ctor_lookup_from(ctors: Seq<(String, (u32, usize))>, name: Seq<char>, i: int) -> Option<(u32, usize)>
    decreases ctors.len() - i,
{
    if i >= ctors.len() {
        None
    } else if i >= 0 && ctors[i].0@ == name {
        Some(ctors[i].1)
    } else {
        ctor_lookup_from(ctors, name, i + 1)
    }
}

pub open spec fn ctor_lookup(ctors: Seq<(String, (u32, usize))>, name: Seq<char>) -> Option<(u32, usize)> {
    ctor_lookup_from(ctors, name, 0)
}

fn ctor_entry(ctors: &Vec<(String, (u32, usize))>, name: &String) -> (r: Option<(u32, usize)>)
    ensures
        r == ctor_lookup(ctors@, name@),
{
    let mut i: usize = 0;
    while i < ctors.len()
        invariant
            i <= ctors.len(),
            ctor_lookup(ctors@, name@) == ctor_lookup_from(ctors@, name@, i as int),
        decreases ctors.len() - i,
    {
        if ctors[i].0 == *name {
            return Some(ctors[i].1);
        }
        i = i + 1;
    }
    None
}

/// `r` is `v` with the recursive group `group` attached: a closure gets
/// the group (keeping its body and environment); any other value stays.
pub open spec fn attached(group: Rc<Vec<(String, Value)>>, v: Value, r: Value) -> bool {
    match v {
        Value::Fun(c) => match *c {
            Callable::Closure(cd) => r matches Value::Fun(d) && *d matches Callable::Closure(e)
                && e.group == Some(group) && e.env == cd.env && e.body == cd.body,
            _ => r == v,
        },
        _ => r == v,
    }
}

/// `f` with the group attached, if it is a closure.
fn attach_group(group: &Rc<Vec<(String, Value)>>, v: &Value) -> (r: Value)
    ensures
        attached(*group, *v, r),
{
    match v {
        Value::Fun(rc) => match &**rc {
            Callable::Closure(cd) => Value::Fun(Rc::new(Callable::Closure(ClosureData {
                group: Some(Rc::clone(group)),
                pat: clone_pattern(&cd.pat),
                body: Rc::clone(&cd.body),
                env: cd.env.share(),
            }))),
            _ => clone_value(v),
        },
        _ => clone_value(v),
    }
}

fn bind_group(env: &Env, group: &Rc<Vec<(String, Value)>>) -> (e: Env)
    ensures
        forall|n: Seq<char>| match #[trigger] last_entry((**group)@, n) {
            Some(v) => env_lookup(e, n) matches Some(w) && attached(*group, v, w),
            None => env_lookup(e, n) == env_lookup(*env, n),
        },
{
    let mut cur = env.share();
    let mut i: usize = 0;
    let members: &Vec<(String, Value)> = &**group;
    while i < members.len()
        invariant
            i <= members.len(),
            *members == **group,
            forall|n: Seq<char>| match #[trigger] last_entry(members@.subrange(0, i as int), n) {
                Some(v) => env_lookup(cur, n) matches Some(w) && attached(*group, v, w),
                None => env_lookup(cur, n) == env_lookup(*env, n),
            },
        decreases members.len() - i,
    {
        let v = attach_group(group, &members[i].1);
        let ghost prev = cur;
        cur = Env(Some(Rc::new(EnvNode { parent: cur, name: members[i].0.clone(), val: v })));
        proof {
            let sub = members@.subrange(0, i + 1);
            assert(sub.drop_last() =~= members@.subrange(0, i as int));
            assert forall|n: Seq<char>| match #[trigger] last_entry(sub, n) {
                Some(v) => env_lookup(cur, n) matches Some(w) && attached(*group, v, w),
                None => env_lookup(cur, n) == env_lookup(*env, n),
            } by {
                assert(last_entry(members@.subrange(0, i as int), n) == last_entry(sub.drop_last(), n));
            }
        }
        i = i + 1;
    }
    proof {
        assert(members@.subrange(0, members@.len() as int) =~= members@);
    }
    cur
}

fn bind_all(env: Env, binds: Vec<(String, Value)>) -> (e: Env)
    ensures
        forall|n: Seq<char>| #[trigger] env_lookup(e, n) == match last_entry(binds@, n) {
            Some(v) => Some(v),
            None => env_lookup(env, n),
        },
{
    let mut cur = env;
    let mut i: usize = 0;
    while i < binds.len()
        invariant
            i <= binds.len(),
            forall|n: Seq<char>| #[trigger] env_lookup(cur, n) == match last_entry(binds@.subrange(0, i as int), n) {
                Some(v) => Some(v),
                None => env_lookup(env, n),
            },
        decreases binds.len() - i,
    {
        let ghost prev = cur;
        cur = Env(Some(Rc::new(EnvNode { parent: cur, name: binds[i].0.clone(), val: clone_value(&binds[i].1) })));
        proof {
            let sub = binds@.subrange(0, i + 1);
            assert(sub.drop_last() =~= binds@.subrange(0, i as int));
            assert forall|n: Seq<char>| #[trigger] env_lookup(cur, n) == match last_entry(sub, n) {
                Some(v) => Some(v),
                None => env_lookup(env, n),
            } by {
                assert(env_lookup(prev, n) == match last_entry(sub.drop_last(), n) {
                    Some(v) => Some(v),
                    None => env_lookup(env, n),
                });
            }
        }
        i = i + 1;
    }
    proof {
        assert(binds@.subrange(0, binds@.len() as int) =~= binds@);
    }
    cur
}

fn is_name(s: &String, lit: &str) -> (b: bool)
    ensures
        b == (s@ == lit@),
{
    let t = String::from_str(lit);
    *s == t
}

} // verus!

verus! {

/// A lowercase hexadecimal digit.
pub open spec fn hex_digit(d: u8) -> u8 {
    if d < 10 { (48 + d) as u8 } else { (87 + d) as u8 }
}

/// How one byte of a runtime string is written inside quotes: the
/// escapes of Rust's `{:?}` for `\t`, `\r`, `\n`, `\\`, `"`, NUL, and
/// `\u{..}` for the other ASCII control bytes; any other byte as it is.
pub open spec fn quoted_byte(b: u8) -> Seq<u8> {
    if b == 9 {
        seq![92u8, 116u8]
    } else if b == 13 {
        seq![92u8, 114u8]
    } else if b == 10 {
        seq![92u8, 110u8]
    } else if b == 92 {
        seq![92u8, 92u8]
    } else if b == 34 {
        seq![92u8, 34u8]
    } else if b == 0 {
        seq![92u8, 48u8]
    } else if b < 0x20 || b == 0x7f {
        seq![92u8, 117u8, 123u8] + (if b / 16 > 0 { seq![hex_digit(b / 16)] } else { Seq::<u8>::empty() })
            + seq![hex_digit(b % 16), 125u8]
    } else {
        seq![b]
    }
}

/// The bytes of `s`, each written as [`quoted_byte`] says.
pub open spec fn quoted_body(s: Seq<u8>) -> Seq<u8>
    decreases s.len(),
{
    if s.len() == 0 {
        Seq::empty()
    } else {
        quoted_body(s.drop_last()) + quoted_byte(s.last())
    }
}

/// `s` between double quotes, escaped.
pub open spec fn quoted(s: Seq<u8>) -> Seq<u8> {
    seq![34u8] + quoted_body(s) + seq![34u8]
}

/// How `show` writes a string: text as `{:?}` writes it, and bytes that
/// are not UTF-8 text byte by byte as [`quoted`] says.
pub open spec fn shown_str(s: Seq<u8>) -> Seq<u8> {
    if vstd::utf8::valid_utf8(s) {
        vstd::utf8::encode_utf8(crate::text::debug_text(vstd::utf8::decode_utf8(s)))
    } else {
        quoted(s)
    }
}

/// The quoted rendering of a runtime string that `show` gives.
pub fn show_str(s: &Vec<u8>) -> (r: Vec<u8>)
    ensures
        r@ == shown_str(s@),
{
    match crate::strings::string_from_utf8(s) {
        Some(t) => {
            let q = crate::text::debug_quote(t.as_str());
            crate::strings::utf8_of(q.as_str())
        },
        None => quote_bytes(s),
    }
}

/// Quoted rendering of runtime string bytes, escaping byte by byte the
/// ASCII control characters, `\\` and `"`.
pub fn quote_bytes(s: &Vec<u8>) -> (r: Vec<u8>)
    ensures
        r@ == quoted(s@),
{
    let mut out: Vec<u8> = Vec::new();
    out.push(34u8);
    let mut i: usize = 0;
    while i < s.len()
        invariant
            i <= s.len(),
            out@ == seq![34u8] + quoted_body(s@.subrange(0, i as int)),
        decreases s.len() - i,
    {
        let b = s[i];
        let ghost before = out@;
        if b == 9 {
            out.push(92u8);
            out.push(116u8);
        } else if b == 13 {
            out.push(92u8);
            out.push(114u8);
        } else if b == 10 {
            out.push(92u8);
            out.push(110u8);
        } else if b == 92 {
            out.push(92u8);
            out.push(92u8);
        } else if b == 34 {
            out.push(92u8);
            out.push(34u8);
        } else if b == 0 {
            out.push(92u8);
            out.push(48u8);
        } else if b < 0x20 || b == 0x7f {
            out.push(92u8);
            out.push(117u8);
            out.push(123u8);
            let hi = b / 16;
            let lo = b % 16;
            if hi > 0 {
                out.push(if hi < 10 { 48 + hi } else { 87 + hi });
            }
            out.push(if lo < 10 { 48 + lo } else { 87 + lo });
            out.push(125u8);
        } else {
            out.push(b);
        }
        proof {
            assert(out@ =~= before + quoted_byte(b));
            assert(s@.subrange(0, i + 1).drop_last() =~= s@.subrange(0, i as int));
        }
        i = i + 1;
    }
    out.push(34u8);
    proof {
        assert(s@.subrange(0, s.len() as int) =~= s@);
    }
    out
}

fn push_str_bytes(out: &mut Vec<u8>, s: &str)
    ensures
        final(out)@ == old(out)@ + vstd::utf8::encode_utf8(s@),
{
    let b = crate::strings::utf8_of(s);
    crate::strings::append_bytes(out, &b);
}

/// How `show` writes a value, descending at most `fuel` levels (deeper
/// parts are written `...`): integers in decimal, booleans as `true` and
/// `false`, strings quoted, `()`, tuples as `(a, b)`, lists as `[a, b]`,
/// constructors as their name or `(Name a b)`, and functions as `<fun>`.
pub open spec fn shown(v: Value, fuel: nat) -> Seq<u8>
    decreases fuel, 0nat,
{
    if fuel == 0 {
        vstd::utf8::encode_utf8("..."@)
    } else {
        match v {
            Value::Int(n) => crate::strings::ascii_bytes(crate::text::int_digits(n as int)),
            Value::Bool(b) => vstd::utf8::encode_utf8(if b { "true"@ } else { "false"@ }),
            Value::Str(s) => shown_str(s@),
            Value::Unit => vstd::utf8::encode_utf8("()"@),
            Value::Tuple(vs) => seq![40u8] + shown_joined(vs@, (fuel - 1) as nat) + seq![41u8],
            Value::Adt(cv) => if cv.name@ == "Cons"@ || cv.name@ == "Nil"@ {
                seq![91u8] + shown_list(v, (fuel - 1) as nat, fuel, true) + seq![93u8]
            } else if cv.fields@.len() == 0 {
                vstd::utf8::encode_utf8(cv.name@)
            } else {
                seq![40u8] + vstd::utf8::encode_utf8(cv.name@) + shown_spaced(cv.fields@, (fuel - 1) as nat)
                    + seq![41u8]
            },
            Value::Fun(_) => vstd::utf8::encode_utf8("<fun>"@),
        }
    }
}

/// The values of `xs`, shown and separated by `, `.
pub open spec fn shown_joined(xs: Seq<Value>, fuel: nat) -> Seq<u8>
    decreases fuel, xs.len(),
{
    if xs.len() == 0 {
        Seq::empty()
    } else if xs.len() == 1 {
        shown(xs[0], fuel)
    } else {
        shown_joined(xs.drop_last(), fuel) + vstd::utf8::encode_utf8(", "@) + shown(xs.last(), fuel)
    }
}

/// The values of `xs`, each shown after a space.
pub open spec fn shown_spaced(xs: Seq<Value>, fuel: nat) -> Seq<u8>
    decreases fuel, xs.len(),
{
    if xs.len() == 0 {
        Seq::empty()
    } else {
        shown_spaced(xs.drop_last(), fuel) + seq![32u8] + shown(xs.last(), fuel)
    }
}

/// The elements of the list `cur`, separated by `, ` (none before the
/// first), for at most `steps` cells; a tail that is not a list is shown
/// after `...`.
pub open spec fn shown_list(cur: Value, fuel: nat, steps: nat, first: bool) -> Seq<u8>
    decreases fuel, steps,
{
    let sep = if first { Seq::<u8>::empty() } else { vstd::utf8::encode_utf8(", "@) };
    if steps == 0 {
        Seq::empty()
    } else {
        match cur {
            Value::Adt(c) => if c.name@ == "Cons"@ && c.fields@.len() >= 2 {
                sep + shown(c.fields@[0], fuel) + shown_list(c.fields@[1], fuel, (steps - 1) as nat, false)
            } else if c.name@ == "Nil"@ {
                Seq::empty()
            } else {
                sep + vstd::utf8::encode_utf8("..."@) + shown(cur, fuel)
            },
            _ => sep + vstd::utf8::encode_utf8("..."@) + shown(cur, fuel),
        }
    }
}

/// Pretty printer used by `show` and by runtime errors.
pub fn show_value(v: &Value) -> (r: Vec<u8>)
    ensures
        r@ == shown(*v, EVAL_DEPTH as nat),
{
    show_value_in(v, EVAL_DEPTH)
}

fn show_value_in(v: &Value, fuel: u64) -> (r: Vec<u8>)
    ensures
        r@ == shown(*v, fuel as nat),
    decreases fuel,
{
    if fuel == 0 {
        return crate::strings::utf8_of("...");
    }
    match v {
        Value::Int(n) => crate::strings::int_to_bytes(*n),
        Value::Bool(b) => crate::strings::utf8_of(if *b { "true" } else { "false" }),
        Value::Str(s) => show_str(&**s),
        Value::Unit => crate::strings::utf8_of("()"),
        Value::Tuple(vs) => {
            let mut out: Vec<u8> = Vec::new();
            out.push(40u8);
            let items: &Vec<Value> = &**vs;
            let mut i: usize = 0;
            while i < items.len()
                invariant
                    i <= items.len(),
                    fuel > 0,
                    out@ == seq![40u8] + shown_joined(items@.subrange(0, i as int), (fuel - 1) as nat),
                decreases items.len() - i,
            {
                if i > 0 {
                    push_str_bytes(&mut out, ", ");
                }
                let x = show_value_in(&items[i], fuel - 1);
                crate::strings::append_bytes(&mut out, &x);
                proof {
                    let pre = items@.subrange(0, i + 1);
                    assert(pre.drop_last() =~= items@.subrange(0, i as int));
                    assert(pre.last() == items@[i as int]);
                    if i == 0 {
                        assert(pre.len() == 1);
                    }
                }
                i = i + 1;
            }
            out.push(41u8);
            proof {
                assert(items@.subrange(0, items.len() as int) =~= items@);
            }
            out
        }
        Value::Adt(cv) => {
            if is_name(&cv.name, "Cons") || is_name(&cv.name, "Nil") {
                let mut out: Vec<u8> = Vec::new();
                out.push(91u8);
                let mut first = true;
                let mut cur = clone_value(v);
                let mut guard: u64 = fuel;
                while guard > 0
                    invariant_except_break
                        seq![91u8] + shown_list(*v, (fuel - 1) as nat, fuel as nat, true)
                            == out@ + shown_list(cur, (fuel - 1) as nat, guard as nat, first),
                    invariant
                        fuel > 0,
                    ensures
                        seq![91u8] + shown_list(*v, (fuel - 1) as nat, fuel as nat, true) == out@,
                    decreases guard,
                {
                    let ghost before = out@;
                    let ghost sep = if first { Seq::<u8>::empty() } else { vstd::utf8::encode_utf8(", "@) };
                    let next = match &cur {
                        Value::Adt(c) => {
                            if is_name(&c.name, "Cons") && c.fields.len() >= 2 {
                                if !first {
                                    push_str_bytes(&mut out, ", ");
                                }
                                first = false;
                                let x = show_value_in(&c.fields[0], fuel - 1);
                                crate::strings::append_bytes(&mut out, &x);
                                proof {
                                    assert(out@ =~= before + sep + shown(c.fields@[0], (fuel - 1) as nat));
                                }
                                Some(clone_value(&c.fields[1]))
                            } else if is_name(&c.name, "Nil") {
                                None
                            } else {
                                if !first {
                                    push_str_bytes(&mut out, ", ");
                                }
                                push_str_bytes(&mut out, "...");
                                let x = show_value_in(&cur, fuel - 1);
                                crate::strings::append_bytes(&mut out, &x);
                                proof {
                                    assert(out@ =~= before + sep + vstd::utf8::encode_utf8("..."@)
                                        + shown(cur, (fuel - 1) as nat));
                                }
                                None
                            }
                        }
                        other => {
                            if !first {
                                push_str_bytes(&mut out, ", ");
                            }
                            push_str_bytes(&mut out, "...");
                            let x = show_value_in(other, fuel - 1);
                            crate::strings::append_bytes(&mut out, &x);
                            proof {
                                assert(out@ =~= before + sep + vstd::utf8::encode_utf8("..."@)
                                    + shown(cur, (fuel - 1) as nat));
                            }
                            None
                        }
                    };
                    match next {
                        Some(n) => {
                            cur = n;
                        }
                        None => {
                            break;
                        }
                    }
                    guard = guard - 1;
                }
                out.push(93u8);
                out
            } else if cv.fields.len() == 0 {
                crate::strings::utf8_of(cv.name.as_str())
            } else {
                let mut out: Vec<u8> = Vec::new();
                out.push(40u8);
                push_str_bytes(&mut out, cv.name.as_str());
                let ghost head = out@;
                let mut i: usize = 0;
                while i < cv.fields.len()
                    invariant
                        i <= cv.fields.len(),
                        fuel > 0,
                        out@ == head + shown_spaced(cv.fields@.subrange(0, i as int), (fuel - 1) as nat),
                    decreases cv.fields.len() - i,
                {
                    out.push(32u8);
                    let x = show_value_in(&cv.fields[i], fuel - 1);
                    crate::strings::append_bytes(&mut out, &x);
                    proof {
                        let pre = cv.fields@.subrange(0, i + 1);
                        assert(pre.drop_last() =~= cv.fields@.subrange(0, i as int));
                    }
                    i = i + 1;
                }
                out.push(41u8);
                proof {
                    assert(cv.fields@.subrange(0, cv.fields.len() as int) =~= cv.fields@);
                }
                out
            }
        }
        Value::Fun(_) => crate::strings::utf8_of("<fun>"),
    }
}

/// Structural equality of runtime values, comparing components left to
/// right: `None` when a function is reached before a difference.
pub open spec fn value_eq(l: Value, r: Value) -> Option<bool>
    decreases l, 0nat,
{
    match (l, r) {
        (Value::Int(a), Value::Int(b)) => Some(a == b),
        (Value::Bool(a), Value::Bool(b)) => Some(a == b),
        (Value::Str(a), Value::Str(b)) => Some(a@ == b@),
        (Value::Unit, Value::Unit) => Some(true),
        (Value::Tuple(xs), Value::Tuple(ys)) => if xs@.len() != ys@.len() {
            Some(false)
        } else {
            values_eq(xs@, ys@, 0)
        },
        (Value::Adt(x), Value::Adt(y)) => if x.tag != y.tag {
            Some(false)
        } else {
            values_eq(x.fields@, y.fields@, 0)
        },
        (Value::Fun(_), _) => None,
        (_, Value::Fun(_)) => None,
        _ => Some(false),
    }
}

/// Pairwise [`value_eq`] of `xs[i..]` and `ys[i..]` (up to the shorter).
pub open spec fn values_eq(xs: Seq<Value>, ys: Seq<Value>, i: int) -> Option<bool>
    decreases xs, xs.len() - i,
{
    if i < 0 || i >= xs.len() || i >= ys.len() {
        Some(true)
    } else {
        match value_eq(xs[i], ys[i]) {
            None => None,
            Some(false) => Some(false),
            Some(true) => values_eq(xs, ys, i + 1),
        }
    }
}

/// Comparing two equally long sequences of values that hold no function
/// from `i` on gives whether every pair from `i` on compares equal.
proof fn lemma_values_eq_pairwise(xs: Seq<Value>, ys: Seq<Value>, i: int)
    requires
        0 <= i <= xs.len(),
        xs.len() == ys.len(),
        forall|j: int| i <= j < xs.len() ==> (#[trigger] value_eq(xs[j], ys[j])) is Some,
    ensures
        values_eq(xs, ys, i) == Some(forall|j: int| i <= j < xs.len() ==> #[trigger] value_eq(xs[j], ys[j]) == Some(true)),
    decreases xs.len() - i,
{
    if i < xs.len() {
        lemma_values_eq_pairwise(xs, ys, i + 1);
        assert(value_eq(xs[i], ys[i]) is Some);
        if value_eq(xs[i], ys[i]) == Some(false) {
            assert(!(forall|j: int| i <= j < xs.len() ==> #[trigger] value_eq(xs[j], ys[j]) == Some(true)));
        } else {
            assert((forall|j: int| i <= j < xs.len() ==> #[trigger] value_eq(xs[j], ys[j]) == Some(true))
                == (forall|j: int| i + 1 <= j < xs.len() ==> #[trigger] value_eq(xs[j], ys[j]) == Some(true)));
        }
    }
}

/// Structural equality of constructor values: two constructor values whose
/// fields hold no function are equal exactly when their tags are equal and
/// their fields are pairwise equal; values that differ in some field
/// compare unequal.
pub proof fn lemma_ctor_equality_is_structural(l: Value, r: Value)
    requires
        l is Adt,
        r is Adt,
        l->Adt_0.tag == r->Adt_0.tag ==> l->Adt_0.fields@.len() == r->Adt_0.fields@.len(),
        l->Adt_0.tag == r->Adt_0.tag ==> forall|j: int| 0 <= j < l->Adt_0.fields@.len()
            ==> (#[trigger] value_eq(l->Adt_0.fields@[j], r->Adt_0.fields@[j])) is Some,
    ensures
        value_eq(l, r) == Some(l->Adt_0.tag == r->Adt_0.tag
            && forall|j: int| 0 <= j < l->Adt_0.fields@.len()
                ==> #[trigger] value_eq(l->Adt_0.fields@[j], r->Adt_0.fields@[j]) == Some(true)),
{
    if l->Adt_0.tag == r->Adt_0.tag {
        lemma_values_eq_pairwise(l->Adt_0.fields@, r->Adt_0.fields@, 0);
    }
}

/// Structural equality of values; functions cannot be compared.
pub fn eq_value(l: &Value, r: &Value) -> (res: Result<bool, Stop>)
    ensures
        match value_eq(*l, *r) {
            Some(b) => res == Ok::<bool, Stop>(b),
            None => res matches Err(Stop::Error(m)) && m@ == "cannot compare functions with == "@,
        },
    decreases l,
{
    match (l, r) {
        (Value::Int(a), Value::Int(b)) => Ok(*a == *b),
        (Value::Bool(a), Value::Bool(b)) => Ok(*a == *b),
        (Value::Str(a), Value::Str(b)) => Ok(crate::strings::bytes_eq(&**a, &**b)),
        (Value::Unit, Value::Unit) => Ok(true),
        (Value::Tuple(xs), Value::Tuple(ys)) => {
            if xs.len() != ys.len() {
                return Ok(false);
            }
            eq_values(l, &**xs, &**ys)
        }
        (Value::Adt(x), Value::Adt(y)) => {
            if x.tag != y.tag {
                return Ok(false);
            }
            eq_values(l, &x.fields, &y.fields)
        }
        (Value::Fun(_), _) | (_, Value::Fun(_)) => Err(err_str("cannot compare functions with == ")),
        _ => Ok(false),
    }
}

fn eq_values(whole: &Value, xs: &Vec<Value>, ys: &Vec<Value>) -> (res: Result<bool, Stop>)
    requires
        whole matches Value::Tuple(t) ==> t@ == xs@,
        whole matches Value::Adt(c) ==> c.fields@ == xs@,
        whole is Tuple || whole is Adt,
    ensures
        match values_eq(xs@, ys@, 0) {
            Some(b) => res == Ok::<bool, Stop>(b),
            None => res matches Err(Stop::Error(m)) && m@ == "cannot compare functions with == "@,
        },
    decreases whole, 1nat,
{
    let mut i: usize = 0;
    while i < xs.len() && i < ys.len()
        invariant
            values_eq(xs@, ys@, 0) == values_eq(xs@, ys@, i as int),
            whole matches Value::Tuple(t) ==> t@ == xs@,
            whole matches Value::Adt(c) ==> c.fields@ == xs@,
            whole is Tuple || whole is Adt,
        decreases xs.len() - i,
    {
        proof {
            match whole {
                Value::Tuple(t) => {
                    assert(decreases_to!(*whole => *t));
                    let v: Vec<Value> = **t;
                    assert(decreases_to!(v => v@));
                    assert(decreases_to!(v@ => v@[i as int]));
                }
                Value::Adt(c) => {
                    assert(decreases_to!(*whole => **c));
                    assert(decreases_to!(**c => c.fields));
                    assert(decreases_to!(c.fields => c.fields@));
                    assert(decreases_to!(c.fields@ => c.fields@[i as int]));
                }
                _ => {}
            }
            assert(decreases_to!(*whole => xs@[i as int]));
        }
        let e = eq_value(&xs[i], &ys[i]);
        match e {
            Err(st) => {
                return Err(st);
            }
            Ok(false) => {
                return Ok(false);
            }
            Ok(true) => {}
        }
        i = i + 1;
    }
    Ok(true)
}

/// Quotient of the division of `a` by `b` rounding toward zero.
pub open spec fn trunc_div(a: int, b: int) -> int {
    let q = (if a < 0 { -a } else { a }) / (if b < 0 { -b } else { b });
    if (a < 0) == (b < 0) { q } else { -q }
}

/// Remainder of [`trunc_div`]: it has the sign of `a`.
pub open spec fn trunc_rem(a: int, b: int) -> int {
    a - b * trunc_div(a, b)
}

/// `a / b` rounding toward zero, wrapping on `MIN / -1`.
pub fn div_wrapping(a: i64, b: i64) -> (q: i64)
    requires
        b != 0,
    ensures
        q == (if a == i64::MIN && b == -1 { i64::MIN as int } else { trunc_div(a as int, b as int) }),
{
    let r = a.checked_div(b);
    proof {
        let x = a as int;
        let d = b as int;
        let out = if x == 0 {
            0
        } else if x > 0 && d > 0 {
            x / d
        } else if x < 0 && d < 0 {
            (x * -1) / (d * -1)
        } else if x < 0 {
            ((x * -1) / d) * -1
        } else {
            (x / (d * -1)) * -1
        };
        assert(trunc_div(x, d) == out) by (nonlinear_arith)
            requires
                d != 0,
                out == (if x == 0 { 0 } else if x > 0 && d > 0 { x / d } else if x < 0 && d < 0 {
                    (x * -1) / (d * -1)
                } else if x < 0 { ((x * -1) / d) * -1 } else { (x / (d * -1)) * -1 }),
        ;
        let ax = if x < 0 { -x } else { x };
        let ad = if d < 0 { -d } else { d };
        assert(ax / ad <= ax) by (nonlinear_arith)
            requires
                ax >= 0,
                ad >= 1,
        ;
        assert(ad >= 2 ==> ax / ad < 0x4000_0000_0000_0001) by (nonlinear_arith)
            requires
                ax >= 0,
                ax <= 0x8000_0000_0000_0000,
        ;
        assert(ad == 1 ==> ax / ad == ax) by (nonlinear_arith);
    }
    match r {
        Some(q) => q,
        None => i64::MIN,
    }
}

/// Remainder of the division rounding toward zero (`0` for `MIN % -1`).
pub fn rem_wrapping(a: i64, b: i64) -> (m: i64)
    requires
        b != 0,
    ensures
        m == trunc_rem(a as int, b as int),
{
    match a.checked_rem(b) {
        Some(m) => {
            proof {
                let x = a as int;
                let d = b as int;
                assert(trunc_rem(x, d) == m) by (nonlinear_arith)
                    requires
                        d != 0,
                        m == (if x == 0 { 0 } else if x > 0 && d > 0 { x % d } else if x < 0 && d < 0 {
                            ((x * -1) % (d * -1)) * -1
                        } else if x < 0 { ((x * -1) % d) * -1 } else { x % (d * -1) }),
                ;
            }
            m
        }
        None => 0,
    }
}

} // verus!

verus! {

// ---------- pattern matching ----------

/// Binding list of a match, as names and values.
pub open spec fn binds_view(b: Seq<(String, Value)>) -> Seq<(Seq<char>, Value)> {
    b.map_values(|x: (String, Value)| (x.0@, x.1))
}

/// Whether the literal pattern `l` matches `v`.
pub open spec fn lit_matches(l: Lit, v: Value) -> bool {
    match (l, v) {
        (Lit::Int(n), Value::Int(x)) => x == n,
        (Lit::Bool(b), Value::Bool(x)) => x == b,
        (Lit::Str(s), Value::Str(x)) => x@ == vstd::utf8::encode_utf8(s@),
        (Lit::Unit, Value::Unit) => true,
        _ => false,
    }
}

/// Matching `p` against `v`: `Err(name)` for a constructor pattern whose
/// constructor is unknown, `Ok(None)` when the value does not match, and
/// otherwise the bindings, left to right.
pub open spec fn match_pat(p: Pattern, v: Value, ctors: Seq<(String, (u32, usize))>) -> Result<Option<Seq<(Seq<char>, Value)>>, Seq<char>>
    decreases p, 0nat,
{
    match p {
        Pattern::Wildcard => Ok(Some(seq![])),
        Pattern::Var(n) => Ok(Some(seq![(n@, v)])),
        Pattern::PLit(l) => Ok(if lit_matches(l, v) { Some(seq![]) } else { None }),
        Pattern::PTuple(ps) => match v {
            Value::Tuple(vs) => if vs@.len() == ps@.len() {
                match_all(ps@, vs@, ctors, 0)
            } else {
                Ok(None)
            },
            _ => Ok(None),
        },
        Pattern::PCtor(name, ps) => match ctor_lookup(ctors, name@) {
            None => Err(name@),
            Some(entry) => match v {
                Value::Adt(cv) => if cv.tag == entry.0 && cv.fields@.len() == ps@.len() {
                    match_all(ps@, cv.fields@, ctors, 0)
                } else {
                    Ok(None)
                },
                _ => Ok(None),
            },
        },
    }
}

/// Matching `ps[i..]` against `vs[i..]` in order, stopping at the first
/// component that fails or errs.
pub open spec fn match_all(ps: Seq<Pattern>, vs: Seq<Value>, ctors: Seq<(String, (u32, usize))>, i: int) -> Result<Option<Seq<(Seq<char>, Value)>>, Seq<char>>
    decreases ps, ps.len() - i,
{
    if i >= ps.len() || i < 0 {
        Ok(Some(seq![]))
    } else {
        match match_pat(ps[i], vs[i], ctors) {
            Err(n) => Err(n),
            Ok(None) => Ok(None),
            Ok(Some(b)) => match match_all(ps, vs, ctors, i + 1) {
                Err(n) => Err(n),
                Ok(None) => Ok(None),
                Ok(Some(b2)) => Ok(Some(b + b2)),
            },
        }
    }
}

} // verus!

verus! {

/// `r` with `acc` put in front of its bindings.
pub open spec fn prepend_binds(acc: Seq<(Seq<char>, Value)>, r: Result<Option<Seq<(Seq<char>, Value)>>, Seq<char>>) -> Result<Option<Seq<(Seq<char>, Value)>>, Seq<char>> {
    match r {
        Ok(Some(b)) => Ok(Some(acc + b)),
        other => other,
    }
}

proof fn lemma_prepend_twice(a: Seq<(Seq<char>, Value)>, b: Seq<(Seq<char>, Value)>, x: Result<Option<Seq<(Seq<char>, Value)>>, Seq<char>>)
    ensures
        prepend_binds(a, prepend_binds(b, x)) == prepend_binds(a + b, x),
{
    match x {
        Ok(Some(c)) => {
            assert(a + (b + c) =~= (a + b) + c);
        }
        _ => {}
    }
}

proof fn lemma_binds_view_push(b: Seq<(String, Value)>, x: (String, Value))
    ensures
        binds_view(b.push(x)) == binds_view(b) + seq![(x.0@, x.1)],
{
    assert(binds_view(b.push(x)) =~= binds_view(b) + seq![(x.0@, x.1)]);
}

/// The message of an unknown constructor error.
pub open spec fn unknown_ctor_message(name: Seq<char>) -> Seq<char> {
    "unknown constructor `"@ + name + "`"@
}

impl Machine {
    /// Host answers not used yet, oldest first.
    pub open spec fn pending(&self) -> Seq<HostReply> {
        self.replies@
    }

    /// A machine with no output and no recorded host answers.
    pub fn new(out: OutSink, ctors: Vec<(String, (u32, usize))>) -> (m: Machine)
        ensures
            m.out == out,
            m.ctors == ctors,
            m.output@ == Seq::<u8>::empty(),
            m.pending() == Seq::<HostReply>::empty(),
    {
        Machine { out, ctors, output: Vec::new(), replies: Vec::new() }
    }

    /// A machine that answers host requests from `replies`, in order.
    pub fn with_replies(out: OutSink, ctors: Vec<(String, (u32, usize))>, replies: Vec<HostReply>) -> (m: Machine)
        ensures
            m.out == out,
            m.ctors == ctors,
            m.output@ == Seq::<u8>::empty(),
            m.pending() == replies@,
    {
        Machine { out, ctors, output: Vec::new(), replies }
    }

    /// The next recorded answer, or a stop asking the host for one.
    fn host(&mut self, req: HostRequest) -> (r: Result<HostReply, Stop>)
        ensures
            final(self).out == old(self).out,
            final(self).ctors == old(self).ctors,
            final(self).output == old(self).output,
            old(self).pending().len() > 0 ==> r == Ok::<HostReply, Stop>(old(self).pending()[0])
                && final(self).pending() == old(self).pending().drop_first(),
            old(self).pending().len() == 0 ==> r == Err::<HostReply, Stop>(Stop::NeedHost(req))
                && final(self).pending() == old(self).pending(),
    {
        if self.replies.len() > 0 {
            let rep = self.replies.remove(0);
            proof {
                assert(self.replies@ =~= old(self).replies@.drop_first());
            }
            Ok(rep)
        } else {
            Err(Stop::NeedHost(req))
        }
    }

    fn pat_match(&self, pat: &Pattern, val: &Value, binds: &mut Vec<(String, Value)>) -> (r: Result<bool, Stop>)
        ensures
            match match_pat(*pat, *val, self.ctors@) {
                Err(n) => r matches Err(Stop::Error(m)) && m@ == unknown_ctor_message(n),
                Ok(None) => r == Ok::<bool, Stop>(false),
                Ok(Some(b)) => r == Ok::<bool, Stop>(true) && binds_view(final(binds)@) == binds_view(old(binds)@) + b,
            },
        decreases pat,
    {
        match pat {
            Pattern::Wildcard => {
                proof {
                    assert(binds_view(binds@) =~= binds_view(binds@) + Seq::<(Seq<char>, Value)>::empty());
                }
                Ok(true)
            }
            Pattern::Var(n) => {
                let x = (n.clone(), clone_value(val));
                proof {
                    lemma_binds_view_push(binds@, x);
                }
                binds.push(x);
                Ok(true)
            }
            Pattern::PLit(l) => {
                let ok = match l {
                    Lit::Int(n) => match val {
                        Value::Int(x) => *x == *n,
                        _ => false,
                    },
                    Lit::Bool(b) => match val {
                        Value::Bool(x) => *x == *b,
                        _ => false,
                    },
                    Lit::Str(s) => match val {
                        Value::Str(x) => {
                            let want = crate::strings::utf8_of(s.as_str());
                            crate::strings::bytes_eq(&**x, &want)
                        }
                        _ => false,
                    },
                    Lit::Unit => match val {
                        Value::Unit => true,
                        _ => false,
                    },
                };
                proof {
                    assert(binds_view(binds@) =~= binds_view(binds@) + Seq::<(Seq<char>, Value)>::empty());
                }
                Ok(ok)
            }
            Pattern::PTuple(ps) => match val {
                Value::Tuple(vs) => {
                    if vs.len() == ps.len() {
                        self.match_seq(ps, &**vs, binds)
                    } else {
                        Ok(false)
                    }
                }
                _ => Ok(false),
            },
            Pattern::PCtor(name, ps) => match ctor_entry(&self.ctors, name) {
                None => Err(stop(concat3("unknown constructor `", name.as_str(), "`"))),
                Some(entry) => match val {
                    Value::Adt(cv) => {
                        if cv.tag == entry.0 && cv.fields.len() == ps.len() {
                            self.match_seq(ps, &cv.fields, binds)
                        } else {
                            Ok(false)
                        }
                    }
                    _ => Ok(false),
                },
            },
        }
    }

    fn match_seq(&self, ps: &Vec<Pattern>, vs: &Vec<Value>, binds: &mut Vec<(String, Value)>) -> (r: Result<bool, Stop>)
        requires
            ps.len() == vs.len(),
        ensures
            match match_all(ps@, vs@, self.ctors@, 0) {
                Err(n) => r matches Err(Stop::Error(m)) && m@ == unknown_ctor_message(n),
                Ok(None) => r == Ok::<bool, Stop>(false),
                Ok(Some(b)) => r == Ok::<bool, Stop>(true) && binds_view(final(binds)@) == binds_view(old(binds)@) + b,
            },
        decreases ps,
    {
        let ghost start = binds@;
        let ghost mut acc: Seq<(Seq<char>, Value)> = seq![];
        let mut j: usize = 0;
        proof {
            assert(binds_view(start) =~= binds_view(start) + acc);
            assert(match_all(ps@, vs@, self.ctors@, 0) == prepend_binds(acc, match_all(ps@, vs@, self.ctors@, 0))) by {
                match match_all(ps@, vs@, self.ctors@, 0) {
                    Ok(Some(c)) => { assert(acc + c =~= c); }
                    _ => {}
                }
            }
        }
        while j < ps.len()
            invariant
                j <= ps.len(),
                ps.len() == vs.len(),
                binds_view(binds@) == binds_view(start) + acc,
                match_all(ps@, vs@, self.ctors@, 0) == prepend_binds(acc, match_all(ps@, vs@, self.ctors@, j as int)),
            decreases ps.len() - j,
        {
            proof {
                assert(decreases_to!(ps => ps[j as int]));
            }
            let ghost before = binds@;
            let ok = self.pat_match(&ps[j], &vs[j], binds);
            match ok {
                Err(e) => {
                    return Err(e);
                }
                Ok(false) => {
                    return Ok(false);
                }
                Ok(true) => {
                    proof {
                        let b = match match_pat(ps@[j as int], vs@[j as int], self.ctors@) {
                            Ok(Some(b)) => b,
                            _ => seq![],
                        };
                        lemma_prepend_twice(acc, b, match_all(ps@, vs@, self.ctors@, j + 1));
                        assert(binds_view(start) + acc + b =~= binds_view(start) + (acc + b));
                        acc = acc + b;
                    }
                }
            }
            j = j + 1;
        }
        proof {
            assert(acc + Seq::<(Seq<char>, Value)>::empty() =~= acc);
        }
        Ok(true)
    }

    /// Bindings of `val` against `pat`; an error when it does not match.
    fn match_pattern(&self, pat: &Pattern, val: &Value) -> (r: Result<Vec<(String, Value)>, Stop>)
        ensures
            match match_pat(*pat, *val, self.ctors@) {
                Err(n) => r matches Err(Stop::Error(m)) && m@ == unknown_ctor_message(n),
                Ok(None) => r matches Err(Stop::Error(_)),
                Ok(Some(b)) => r matches Ok(bs) && binds_view(bs@) == b,
            },
    {
        let mut binds: Vec<(String, Value)> = Vec::new();
        proof {
            assert(binds_view(binds@) =~= Seq::<(Seq<char>, Value)>::empty());
        }
        let ok = self.pat_match(pat, val, &mut binds);
        match ok {
            Err(e) => Err(e),
            Ok(true) => {
                proof {
                    match match_pat(*pat, *val, self.ctors@) {
                        Ok(Some(b)) => { assert(Seq::<(Seq<char>, Value)>::empty() + b =~= b); }
                        _ => {}
                    }
                }
                Ok(binds)
            }
            Ok(false) => {
                let shown = show_value(val);
                let text = text_of_bytes(&shown);
                Err(stop(concat("pattern match failed: ", text.as_str())))
            }
        }
    }
}

} // verus!

verus! {

// ---------- operators ----------

/// Operators evaluated on two integers.
pub open spec fn is_int_op(op: BinOp) -> bool {
    match op {
        BinOp::Add | BinOp::Sub | BinOp::Mul | BinOp::Div | BinOp::Mod | BinOp::Lt | BinOp::Gt
        | BinOp::Le | BinOp::Ge => true,
        _ => false,
    }
}

/// An integer operator applied to `a` and `b`: arithmetic wraps around,
/// division rounds toward zero, a zero divisor is an error.
pub open spec fn int_binop(op: BinOp, a: i64, b: i64) -> Result<Value, Seq<char>> {
    match op {
        BinOp::Add => Ok(Value::Int(a.wrapping_add(b))),
        BinOp::Sub => Ok(Value::Int(a.wrapping_sub(b))),
        BinOp::Mul => Ok(Value::Int(a.wrapping_mul(b))),
        BinOp::Div => if b == 0 {
            Err("division by zero"@)
        } else if a == i64::MIN && b == -1 {
            Ok(Value::Int(i64::MIN))
        } else {
            Ok(Value::Int(trunc_div(a as int, b as int) as i64))
        },
        BinOp::Mod => if b == 0 {
            Err("modulo by zero"@)
        } else {
            Ok(Value::Int(trunc_rem(a as int, b as int) as i64))
        },
        BinOp::Lt => Ok(Value::Bool(a < b)),
        BinOp::Gt => Ok(Value::Bool(a > b)),
        BinOp::Le => Ok(Value::Bool(a <= b)),
        BinOp::Ge => Ok(Value::Bool(a >= b)),
        _ => Ok(Value::Unit),
    }
}

/// Name lookup in the environment chain `env`.
pub open spec fn env_look(env: Env) -> spec_fn(Seq<char>) -> Option<Value> {
    |n: Seq<char>| env_lookup(env, n)
}

/// The lookup `look` with `name` bound to `v`.
pub open spec fn bound_in(look: spec_fn(Seq<char>) -> Option<Value>, name: Seq<char>, v: Value) -> spec_fn(Seq<char>) -> Option<Value> {
    |n: Seq<char>| if n == name { Some(v) } else { look(n) }
}

/// The body of a closure value.
pub open spec fn closure_body(v: Value) -> Option<Expr> {
    match v {
        Value::Fun(c) => match *c {
            Callable::Closure(cd) => Some(*cd.body),
            _ => None,
        },
        _ => None,
    }
}

/// Expressions that are the same all the way down have the same value.
proof fn lemma_arith_same(a: Expr, b: Expr, look: spec_fn(Seq<char>) -> Option<Value>, fuel: nat)
    requires
        crate::ast::expr_same(a, b),
    ensures
        arith_value(a, look, fuel) == arith_value(b, look, fuel),
    decreases fuel,
{
    if fuel > 0 {
        let f = (fuel - 1) as nat;
        match (a, b) {
            (Expr::Bin(o, l, r), Expr::Bin(p, m, q)) => {
                assert(o == p);
                lemma_arith_same(*l, *m, look, f);
                lemma_arith_same(*r, *q, look, f);
                assert(arith_bin(o, *l, *r, look, fuel) == arith_bin(o, *m, *q, look, fuel));
                assert(arith_value(a, look, fuel) == arith_bin(o, *l, *r, look, fuel));
                assert(arith_value(b, look, fuel) == arith_bin(p, *m, *q, look, fuel));
            },
            (Expr::If(c, t, e), Expr::If(d, u, g)) => {
                lemma_arith_same(*c, *d, look, f);
                lemma_arith_same(*t, *u, look, f);
                lemma_arith_same(*e, *g, look, f);
                assert(arith_value(a, look, fuel) == arith_value(b, look, fuel));
            },
            (Expr::Sequence(l, r), Expr::Sequence(m, q)) => {
                lemma_arith_same(*l, *m, look, f);
                lemma_arith_same(*r, *q, look, f);
                assert(arith_value(a, look, fuel) == arith_value(b, look, fuel));
            },
            (Expr::Ann(x, _), Expr::Ann(y, _)) => {
                lemma_arith_same(*x, *y, look, f);
            },
            (Expr::Let { is_rec: r1, name: n1, rhs: x1, body: b1 }, Expr::Let { is_rec: r2, name: n2, rhs: x2, body: b2 }) => {
                lemma_arith_same(*x1, *x2, look, f);
                if let Some(v) = arith_value(*x1, look, f) {
                    lemma_arith_same(*b1, *b2, bound_in(look, n1@, v), f);
                }
                assert(arith_value(a, look, fuel) == arith_value(b, look, fuel));
            },
            (Expr::Lit(x), Expr::Lit(y)) => {
                assert(x == y);
            },
            (Expr::Var(x), Expr::Var(y)) => {
                assert(x@ == y@);
            },
            _ => {
                assert(arith_value(a, look, fuel) is None);
                assert(arith_value(b, look, fuel) is None);
            },
        }
    }
}

/// The value bound last to `n` in the bindings `b`.
pub open spec fn last_bound(b: Seq<(Seq<char>, Value)>, n: Seq<char>) -> Option<Value>
    decreases b.len(),
{
    if b.len() == 0 {
        None
    } else if b.last().0 == n {
        Some(b.last().1)
    } else {
        last_bound(b.drop_last(), n)
    }
}

/// The lookup `look` with the bindings `b` added (later ones win).
pub open spec fn bound_all(look: spec_fn(Seq<char>) -> Option<Value>, b: Seq<(Seq<char>, Value)>) -> spec_fn(Seq<char>) -> Option<Value> {
    |n: Seq<char>| match last_bound(b, n) {
        Some(v) => Some(v),
        None => look(n),
    }
}

proof fn lemma_last_bound(b: Seq<(String, Value)>, n: Seq<char>)
    ensures
        crate::codegen::last_entry(b, n) == last_bound(binds_view(b), n),
    decreases b.len(),
{
    if b.len() > 0 {
        lemma_last_bound(b.drop_last(), n);
        assert(binds_view(b).drop_last() =~= binds_view(b.drop_last()));
    }
}

/// The first branch from the `i`-th on whose pattern does not plainly
/// fail on `v`: its index and what matching gave (the bindings, or an
/// unknown constructor).
pub open spec fn first_branch(branches: Seq<(Pattern, Expr)>, v: Value, ctors: Seq<(String, (u32, usize))>, i: int) -> Option<(int, Result<Seq<(Seq<char>, Value)>, Seq<char>>)>
    decreases branches.len() - i,
{
    if i < 0 || i >= branches.len() {
        None
    } else {
        match match_pat(branches[i].0, v, ctors) {
            Ok(None) => first_branch(branches, v, ctors, i + 1),
            Ok(Some(b)) => Some((i, Ok(b))),
            Err(n) => Some((i, Err(n))),
        }
    }
}

/// What `case scrut of branches` gives when the scrutinee is a pure
/// computation with value `v`: no branch matches (a stop with the value
/// shown), a pattern names an unknown constructor, or the chosen body is
/// itself pure and gives its value without changing the machine.
pub open spec fn case_clause(res: Result<Value, Stop>, m0: Machine, m1: Machine, scrut: Expr, branches: Seq<(Pattern, Expr)>, look: spec_fn(Seq<char>) -> Option<Value>, fuel: nat) -> bool {
    arith_value(scrut, look, fuel) matches Some(v) ==> match first_branch(branches, v, m0.ctors@, 0) {
        None => vstd::utf8::valid_utf8(shown(v, EVAL_DEPTH as nat)) ==> is_error(
            res,
            "non-exhaustive pattern match on "@ + vstd::utf8::decode_utf8(shown(v, EVAL_DEPTH as nat)),
        ),
        Some((i, Err(n))) => is_error(res, unknown_ctor_message(n)),
        Some((i, Ok(b))) => arith_value(branches[i].1, bound_all(look, b), fuel) matches Some(w) ==> res == Ok::<Value, Stop>(w)
            && m1 == m0,
    }
}

/// The value of `e` in `env` when `e` is a pure computation on integers
/// and booleans: literals, variables (looked up with `env`), the strict
/// operators on integers, `==` and `!=`, the short-circuit `&&` and `||`,
/// `if`, `;`, type annotations and non-recursive `let`, within `fuel`
/// levels of nesting.  `None` for everything
/// else, and where such a computation fails (a division by zero, an
/// unbound variable, an `if` on a non-boolean).
pub open spec fn arith_value(e: Expr, env: spec_fn(Seq<char>) -> Option<Value>, fuel: nat) -> Option<Value>
    decreases fuel, 1nat,
{
    if fuel == 0 {
        None
    } else {
        match e {
            Expr::Lit(Lit::Int(n)) => Some(Value::Int(n)),
            Expr::Lit(Lit::Bool(b)) => Some(Value::Bool(b)),
            Expr::Lit(Lit::Unit) => Some(Value::Unit),
            Expr::Var(n) => env(n@),
            Expr::Let { is_rec: false, name, rhs, body } => match arith_value(*rhs, env, (fuel - 1) as nat) {
                Some(v) => arith_value(*body, bound_in(env, name@, v), (fuel - 1) as nat),
                None => None,
            },
            Expr::Bin(op, l, r) => arith_bin(op, *l, *r, env, fuel),
            Expr::If(c, t, f) => match arith_value(*c, env, (fuel - 1) as nat) {
                Some(Value::Bool(true)) => arith_value(*t, env, (fuel - 1) as nat),
                Some(Value::Bool(false)) => arith_value(*f, env, (fuel - 1) as nat),
                _ => None,
            },
            Expr::Sequence(l, r) => match arith_value(*l, env, (fuel - 1) as nat) {
                Some(_) => arith_value(*r, env, (fuel - 1) as nat),
                None => None,
            },
            Expr::Ann(x, _) => arith_value(*x, env, (fuel - 1) as nat),
            _ => None,
        }
    }
}

/// [`arith_value`] of `l op r`.
pub open spec fn arith_bin(op: BinOp, l: Expr, r: Expr, env: spec_fn(Seq<char>) -> Option<Value>, fuel: nat) -> Option<Value>
    decreases fuel, 0nat,
{
    if fuel == 0 {
        None
    } else if op == BinOp::And || op == BinOp::Or {
        match arith_value(l, env, (fuel - 1) as nat) {
            Some(Value::Bool(b)) => if b == (op == BinOp::Or) {
                Some(Value::Bool(b))
            } else {
                match arith_value(r, env, (fuel - 1) as nat) {
                    Some(Value::Bool(c)) => Some(Value::Bool(c)),
                    _ => None,
                }
            },
            _ => None,
        }
    } else {
        match (arith_value(l, env, (fuel - 1) as nat), arith_value(r, env, (fuel - 1) as nat)) {
            (Some(x), Some(y)) => if is_int_op(op) {
                match (x, y) {
                    (Value::Int(a), Value::Int(b)) => match int_binop(op, a, b) {
                        Ok(v) => Some(v),
                        Err(_) => None,
                    },
                    _ => None,
                }
            } else if op == BinOp::Eq || op == BinOp::Neq {
                match value_eq(x, y) {
                    Some(b) => Some(Value::Bool(if op == BinOp::Eq { b } else { !b })),
                    None => None,
                }
            } else {
                None
            },
            _ => None,
        }
    }
}

/// The error an integer operator stops with when both operands have
/// integer values within `fuel` levels (division or modulo by zero).
pub open spec fn bin_int_error(op: BinOp, l: Expr, r: Expr, env: spec_fn(Seq<char>) -> Option<Value>, fuel: nat) -> Option<Seq<char>> {
    if is_int_op(op) {
        match (arith_value(l, env, fuel), arith_value(r, env, fuel)) {
            (Some(Value::Int(a)), Some(Value::Int(b))) => match int_binop(op, a, b) {
                Err(m) => Some(m),
                Ok(_) => None,
            },
            _ => None,
        }
    } else {
        None
    }
}

/// `r` is the closure of the lambda `fun p -> b` over `env`.
pub open spec fn is_closure_of(r: Result<Value, Stop>, p: Pattern, b: Expr, env: Env) -> bool {
    r matches Ok(Value::Fun(c)) && (*c matches Callable::Closure(cd) && cd.group is None
        && crate::ast::pat_same(cd.pat, p) && crate::ast::expr_same(*cd.body, b) && cd.env == env)
}

/// `item` is a `let rec ... and ...` group in which a name occurs twice.
pub open spec fn group_repeats_name(item: Item) -> bool {
    item matches Item::RecGroup(ds) && exists|a: int, b: int|
        0 <= a < b < ds@.len() && #[trigger] ds@[a].name@ == #[trigger] ds@[b].name@
}

/// `m` is the message for a name that occurs twice in the group `item`.
pub open spec fn duplicate_message(item: Item, m: Seq<char>) -> bool {
    item matches Item::RecGroup(ds) && exists|a: int, b: int|
        0 <= a < b < ds@.len() && #[trigger] ds@[a].name@ == #[trigger] ds@[b].name@ && m == "duplicate definition `"@
            + ds@[a].name@ + "`"@
}

/// `r` is the error with message `msg`.
pub open spec fn is_error(r: Result<Value, Stop>, msg: Seq<char>) -> bool {
    r matches Err(Stop::Error(m)) && m@ == msg
}

/// `r` is a string value holding `bytes`.
pub open spec fn is_str(r: Result<Value, Stop>, bytes: Seq<u8>) -> bool {
    r matches Ok(Value::Str(s)) && s@ == bytes
}

impl Machine {
    /// Evaluates a strict binary operator on two evaluated operands.
    fn binop(&self, op: BinOp, l: Value, r: Value) -> (res: EResult)
        ensures
            res matches Err(st) ==> st is Error,
            is_int_op(op) && l is Int && r is Int ==> match int_binop(op, l->Int_0, r->Int_0) {
                Ok(v) => res == Ok::<Value, Stop>(v),
                Err(m) => is_error(res, m),
            },
            op == BinOp::Concat && l is Str && r is Str ==> is_str(res, l->Str_0@ + r->Str_0@),
            op == BinOp::Cons ==> match ctor_lookup(self.ctors@, "Cons"@) {
                Some(entry) => res matches Ok(Value::Adt(c)) && c.name@ == "Cons"@ && c.tag == entry.0
                    && c.fields@ == seq![l, r],
                None => is_error(res, unknown_ctor_message("Cons"@)),
            },
            op == BinOp::Eq || op == BinOp::Neq ==> match value_eq(l, r) {
                Some(b) => res == Ok::<Value, Stop>(Value::Bool(if op == BinOp::Eq { b } else { !b })),
                None => is_error(res, "cannot compare functions with == "@),
            },
    {
        match op {
            BinOp::Eq | BinOp::Neq => {
                let eq = eq_value(&l, &r)?;
                Ok(Value::Bool(if op == BinOp::Eq { eq } else { !eq }))
            }
            BinOp::Concat => match (&l, &r) {
                (Value::Str(a), Value::Str(b)) => Ok(Value::Str(Rc::new(crate::strings::bytes_concat(&**a, &**b)))),
                _ => Err(err_str("`^` applied to non-strings")),
            },
            BinOp::Cons => {
                let name = String::from_str("Cons");
                match ctor_entry(&self.ctors, &name) {
                    Some(entry) => {
                        let mut fields: Vec<Value> = Vec::new();
                        fields.push(l);
                        fields.push(r);
                        proof {
                            assert(fields@ =~= seq![l, r]);
                        }
                        Ok(Value::Adt(Rc::new(CtorVal { name, tag: entry.0, fields })))
                    }
                    None => Err(stop(concat3("unknown constructor `", "Cons", "`"))),
                }
            }
            BinOp::And | BinOp::Or => Err(err_str("logical operator applied strictly")),
            _ => match (&l, &r) {
                (Value::Int(a), Value::Int(b)) => {
                    let (a, b) = (*a, *b);
                    match op {
                        BinOp::Add => Ok(Value::Int(a.wrapping_add(b))),
                        BinOp::Sub => Ok(Value::Int(a.wrapping_sub(b))),
                        BinOp::Mul => Ok(Value::Int(a.wrapping_mul(b))),
                        BinOp::Div => if b == 0 {
                            Err(err_str("division by zero"))
                        } else {
                            Ok(Value::Int(div_wrapping(a, b)))
                        },
                        BinOp::Mod => if b == 0 {
                            Err(err_str("modulo by zero"))
                        } else {
                            Ok(Value::Int(rem_wrapping(a, b)))
                        },
                        BinOp::Lt => Ok(Value::Bool(a < b)),
                        BinOp::Gt => Ok(Value::Bool(a > b)),
                        BinOp::Le => Ok(Value::Bool(a <= b)),
                        _ => Ok(Value::Bool(a >= b)),
                    }
                }
                _ => Err(err_str("arithmetic on non-integers")),
            },
        }
    }
}

} // verus!

verus! {

// ---------- builtins ----------

/// Whether `n` is a Unicode scalar value.
pub open spec fn scalar_ok(n: i64) -> bool {
    0 <= n <= 0x10FFFF && !(0xD800 <= n <= 0xDFFF)
}

/// Rust's text for why a decimal integer could not be read.
pub open spec fn int_err_text(e: crate::strings::IntErr) -> Seq<char> {
    match e {
        crate::strings::IntErr::Empty => "cannot parse integer from empty string"@,
        crate::strings::IntErr::InvalidDigit => "invalid digit found in string"@,
        crate::strings::IntErr::PosOverflow => "number too large to fit in target type"@,
        crate::strings::IntErr::NegOverflow => "number too small to fit in target type"@,
    }
}

/// `m` ends with `suffix`.
pub open spec fn ends_with(m: Seq<char>, suffix: Seq<char>) -> bool {
    m.len() >= suffix.len() && m.subrange(m.len() - suffix.len(), m.len() as int) == suffix
}

/// Builtins that ask the host.
pub open spec fn is_host_builtin(k: BuiltinKind) -> bool {
    k == BuiltinKind::ReadFile || k == BuiltinKind::WriteFile || k == BuiltinKind::Argv || k == BuiltinKind::System
}

/// Whether the arguments of a host builtin have the types it expects.
pub open spec fn host_args_ok(k: BuiltinKind, args: Seq<Value>) -> bool {
    match k {
        BuiltinKind::ReadFile => args[0] is Str,
        BuiltinKind::WriteFile => args[0] is Str && args[1] is Str,
        BuiltinKind::Argv => args[0] is Int,
        BuiltinKind::System => args[0] is Str,
        _ => false,
    }
}

/// Whether `[start, start + len)` lies inside a string of `n` bytes.
pub open spec fn range_in_bounds(start: i64, len: i64, n: nat) -> bool {
    start >= 0 && len >= 0 && start <= n && start + len <= n
}

/// The error message of an out-of-bounds `substring`.
pub open spec fn substring_range_message(start: i64, len: i64, n: nat) -> Seq<char> {
    "substring: range ["@ + crate::text::int_digits(start as int) + ","@
        + crate::text::int_digits(start.wrapping_add(len) as int) + ") out of bounds for length "@
        + crate::text::nat_digits(n)
}

/// What a builtin returns for its arguments, given the host answers not
/// used yet (the host builtins use the first one, or ask for it).
pub open spec fn builtin_result(k: BuiltinKind, args: Seq<Value>, pending: Seq<HostReply>, res: Result<Value, Stop>) -> bool {
    match k {
        BuiltinKind::PrintInt | BuiltinKind::PrintStr => res == Ok::<Value, Stop>(Value::Unit),
        BuiltinKind::IntToStr => args[0] matches Value::Int(n)
            ==> is_str(res, crate::strings::ascii_bytes(crate::text::int_digits(n as int))),
        BuiltinKind::BoolToStr => args[0] matches Value::Bool(b)
            ==> is_str(res, vstd::utf8::encode_utf8(if b { "true"@ } else { "false"@ })),
        BuiltinKind::StrLen => args[0] matches Value::Str(s) ==> res == Ok::<Value, Stop>(Value::Int(s@.len() as i64)),
        BuiltinKind::StrConcat => (args[0], args[1]) matches (Value::Str(a), Value::Str(b)) ==> is_str(res, a@ + b@),
        BuiltinKind::Exit => args[0] matches Value::Int(n) ==> res == Err::<Value, Stop>(Stop::Exit(n)),
        BuiltinKind::Chr => args[0] matches Value::Int(n) ==> if scalar_ok(n) {
            is_str(res, vstd::utf8::encode_scalar(n as u32))
        } else {
            is_error(res, "chr: "@ + crate::text::int_digits(n as int) + " is not a valid character"@)
        },
        BuiltinKind::Ord => args[0] matches Value::Str(s)
            ==> res == Ok::<Value, Stop>(Value::Int(if s@.len() > 0 { s@[0] as i64 } else { -1i64 })),
        BuiltinKind::StrGet => (args[0], args[1]) matches (Value::Str(s), Value::Int(i))
            ==> res == Ok::<Value, Stop>(Value::Int(if 0 <= i < s@.len() { s@[i as int] as i64 } else { -1i64 })),
        BuiltinKind::Substring => (args[0], args[1], args[2]) matches (Value::Str(s), Value::Int(st), Value::Int(len))
            ==> if !range_in_bounds(st, len, s@.len()) {
                is_error(res, substring_range_message(st, len, s@.len()))
            } else if !crate::strings::char_boundary(s@, st as int) || !crate::strings::char_boundary(s@, st + len) {
                is_error(res, "substring: not a char boundary"@)
            } else {
                is_str(res, s@.subrange(st as int, st + len))
            },
        BuiltinKind::StrToInt => args[0] matches Value::Str(s) ==> str_to_int_result(s@, res),
        BuiltinKind::Error => args[0] matches Value::Str(s) ==> (res matches Err(Stop::Error(m))
            && (vstd::utf8::valid_utf8(s@) ==> m@ == "error: "@ + vstd::utf8::decode_utf8(s@))),
        BuiltinKind::Show => is_str(res, shown(args[0], EVAL_DEPTH as nat)),
        BuiltinKind::ReadFile => args[0] matches Value::Str(p) ==> if pending.len() == 0 {
            res matches Err(Stop::NeedHost(HostRequest::ReadFile(q))) && q@ == p@
        } else {
            match pending[0] {
                HostReply::Text(t) => is_str(res, t@),
                HostReply::Failed(m) => is_error(res, "read_file: "@ + m@),
                _ => is_error(res, "unexpected host reply"@),
            }
        },
        BuiltinKind::WriteFile => (args[0], args[1]) matches (Value::Str(p), Value::Str(d)) ==> if pending.len() == 0 {
            res matches Err(Stop::NeedHost(HostRequest::WriteFile(q, e))) && q@ == p@ && e@ == d@
        } else {
            match pending[0] {
                HostReply::Done => res == Ok::<Value, Stop>(Value::Unit),
                HostReply::Failed(m) => is_error(res, "write_file: "@ + m@),
                _ => is_error(res, "unexpected host reply"@),
            }
        },
        BuiltinKind::Argv => args[0] matches Value::Int(i) ==> if pending.len() == 0 {
            res == Err::<Value, Stop>(Stop::NeedHost(HostRequest::Argv(i)))
        } else {
            match pending[0] {
                HostReply::Text(t) => is_str(res, t@),
                _ => is_error(res, "unexpected host reply"@),
            }
        },
        BuiltinKind::System => args[0] matches Value::Str(c) ==> if pending.len() == 0 {
            res matches Err(Stop::NeedHost(HostRequest::System(q))) && q@ == c@
        } else {
            match pending[0] {
                HostReply::Code(n) => res == Ok::<Value, Stop>(Value::Int(n)),
                _ => is_error(res, "unexpected host reply"@),
            }
        },
    }
}

/// What a builtin prints.
pub open spec fn builtin_printed(k: BuiltinKind, args: Seq<Value>) -> Seq<u8> {
    match (k, args[0]) {
        (BuiltinKind::PrintInt, Value::Int(n)) => crate::strings::ascii_bytes(crate::text::int_digits(n as int)),
        (BuiltinKind::PrintStr, Value::Str(s)) => s@,
        _ => seq![],
    }
}

fn ill_typed() -> (s: Stop)
    ensures
        s matches Stop::Error(m) && m@ == "builtin applied to a value of the wrong type"@,
{
    err_str("builtin applied to a value of the wrong type")
}

fn int_err_message(e: crate::strings::IntErr) -> (s: &'static str)
    ensures
        s@ == int_err_text(e),
{
    match e {
        crate::strings::IntErr::Empty => "cannot parse integer from empty string",
        crate::strings::IntErr::InvalidDigit => "invalid digit found in string",
        crate::strings::IntErr::PosOverflow => "number too large to fit in target type",
        crate::strings::IntErr::NegOverflow => "number too small to fit in target type",
    }
}

fn host_text(r: HostReply, what: &str) -> (res: EResult)
    ensures
        match r {
            HostReply::Text(t) => is_str(res, t@),
            HostReply::Failed(m) => is_error(res, what@ + m@),
            _ => is_error(res, "unexpected host reply"@),
        },
{
    match r {
        HostReply::Text(t) => Ok(Value::Str(Rc::new(t))),
        HostReply::Failed(m) => Err(stop(concat(what, m.as_str()))),
        _ => Err(err_str("unexpected host reply")),
    }
}

fn bytes_copy(b: &Vec<u8>) -> (r: Vec<u8>)
    ensures
        r@ == b@,
{
    crate::strings::byte_slice(b, 0, b.len())
}

fn pure_builtin(kind: BuiltinKind, args: &Vec<Value>) -> (res: EResult)
    requires
        args.len() == builtin_arity(kind),
        !is_host_builtin(kind),
    ensures
        builtin_result(kind, args@, seq![], res),
        !(res matches Err(Stop::NeedHost(_))),
{
    let a0 = &args[0];
    match kind {
        BuiltinKind::PrintInt | BuiltinKind::PrintStr => Ok(Value::Unit),
        BuiltinKind::IntToStr => match a0 {
            Value::Int(n) => Ok(Value::Str(Rc::new(crate::strings::int_to_bytes(*n)))),
            _ => Err(ill_typed()),
        },
        BuiltinKind::BoolToStr => match a0 {
            Value::Bool(b) => Ok(Value::Str(Rc::new(crate::strings::utf8_of(if *b { "true" } else { "false" })))),
            _ => Err(ill_typed()),
        },
        BuiltinKind::StrLen => match a0 {
            Value::Str(s) => Ok(Value::Int(s.len() as i64)),
            _ => Err(ill_typed()),
        },
        BuiltinKind::StrConcat => match (a0, &args[1]) {
            (Value::Str(a), Value::Str(b)) => Ok(Value::Str(Rc::new(crate::strings::bytes_concat(&**a, &**b)))),
            _ => Err(ill_typed()),
        },
        BuiltinKind::Exit => match a0 {
            Value::Int(n) => Err(Stop::Exit(*n)),
            _ => Err(ill_typed()),
        },
        BuiltinKind::Chr => match a0 {
            Value::Int(n) => {
                let n = *n;
                if 0 <= n && n <= 0x10FFFF && !(0xD800 <= n && n <= 0xDFFF) {
                    Ok(Value::Str(Rc::new(crate::strings::encode_scalar_bytes(n as u32))))
                } else {
                    let ds = crate::text::i64_to_string(n);
                    Err(stop(concat3("chr: ", ds.as_str(), " is not a valid character")))
                }
            }
            _ => Err(ill_typed()),
        },
        BuiltinKind::Ord => match a0 {
            Value::Str(s) => Ok(Value::Int(if s.len() > 0 { s[0] as i64 } else { -1 })),
            _ => Err(ill_typed()),
        },
        BuiltinKind::StrGet => match (a0, &args[1]) {
            (Value::Str(s), Value::Int(i)) => {
                let i = *i;
                if i < 0 || i as u64 >= s.len() as u64 {
                    Ok(Value::Int(-1))
                } else {
                    Ok(Value::Int(s[i as usize] as i64))
                }
            }
            _ => Err(ill_typed()),
        },
        BuiltinKind::Substring => match (a0, &args[1], &args[2]) {
            (Value::Str(s), Value::Int(start), Value::Int(len)) => substring(&**s, *start, *len),
            _ => Err(ill_typed()),
        },
        BuiltinKind::StrToInt => match a0 {
            Value::Str(s) => string_to_int(&**s),
            _ => Err(ill_typed()),
        },
        BuiltinKind::Error => match a0 {
            Value::Str(s) => {
                let t = text_of_bytes(&**s);
                Err(stop(concat("error: ", t.as_str())))
            }
            _ => Err(ill_typed()),
        },
        BuiltinKind::Show => Ok(Value::Str(Rc::new(show_value(a0)))),
        _ => Err(ill_typed()),
    }
}

fn substring(s: &Vec<u8>, start: i64, len: i64) -> (res: EResult)
    ensures
        if !range_in_bounds(start, len, s@.len()) {
            is_error(res, substring_range_message(start, len, s@.len()))
        } else if !crate::strings::char_boundary(s@, start as int) || !crate::strings::char_boundary(s@, start + len) {
            is_error(res, "substring: not a char boundary"@)
        } else {
            is_str(res, s@.subrange(start as int, start + len))
        },
{
    let n = s.len();
    if start < 0 || len < 0 || start as u64 > n as u64 || len as u64 > n as u64 - start as u64 {
        let mut m = String::from_str("substring: range [");
        let a = crate::text::i64_to_string(start);
        m.append(a.as_str());
        m.append(",");
        let b = crate::text::i64_to_string(start.wrapping_add(len));
        m.append(b.as_str());
        m.append(") out of bounds for length ");
        let c = crate::text::u64_to_string(n as u64);
        m.append(c.as_str());
        return Err(stop(m));
    }
    let st = start as usize;
    let en = st + len as usize;
    if !crate::strings::is_char_boundary(s, st) || !crate::strings::is_char_boundary(s, en) {
        return Err(err_str("substring: not a char boundary"));
    }
    Ok(Value::Str(Rc::new(crate::strings::byte_slice(s, st, en))))
}

/// What `string_to_int` gives for the bytes `s`: the `i64` that the text
/// spells once white space around it is dropped, or an error that quotes
/// the text and ends with the reason.
pub open spec fn str_to_int_result(s: Seq<u8>, res: Result<Value, Stop>) -> bool {
    match crate::strings::parse_int_spec(crate::strings::trimmed(s)) {
        Ok(v) => res == Ok::<Value, Stop>(Value::Int(v as i64)),
        Err(e) => res matches Err(Stop::Error(m)) && "string_to_int: cannot parse "@.is_prefix_of(m@)
            && ends_with(m@, ": "@ + int_err_text(e)),
    }
}

/// `string_to_int` reads back what `int_to_string` wrote: for every
/// integer `n`, `string_to_int (int_to_string n)` is `n`.
pub proof fn lemma_string_to_int_reads_int_to_string(
    n: i64,
    text: Value,
    res: Result<Value, Stop>,
    pending: Seq<HostReply>,
)
    requires
        builtin_result(BuiltinKind::IntToStr, seq![Value::Int(n)], pending, Ok::<Value, Stop>(text)),
        builtin_result(BuiltinKind::StrToInt, seq![text], pending, res),
    ensures
        res == Ok::<Value, Stop>(Value::Int(n)),
{
    let bytes = crate::strings::ascii_bytes(crate::text::int_digits(n as int));
    crate::strings::lemma_spelling_is_trimmed(n);
    crate::strings::lemma_parse_int_of_spelling(n);
    assert(crate::strings::trimmed(bytes) == bytes);
}

fn string_to_int(s: &Vec<u8>) -> (res: EResult)
    ensures
        str_to_int_result(s@, res),
{
    let (i, j) = crate::strings::trim_bounds(s);
    let t = crate::strings::byte_slice(s, i, j);
    match crate::strings::parse_int(&t) {
        Ok(v) => Ok(Value::Int(v)),
        Err(e) => {
            let q = text_of_bytes(&show_str(s));
            let mut m = String::from_str("string_to_int: cannot parse ");
            let ghost head = m@;
            m.append(q.as_str());
            let tail = concat(": ", int_err_message(e));
            m.append(tail.as_str());
            proof {
                let whole = m@;
                assert(whole.subrange(whole.len() - tail@.len(), whole.len() as int) =~= tail@);
                assert(ends_with(m@, ": "@ + int_err_text(e)));
                assert(whole.subrange(0, head.len() as int) =~= head);
            }
            Err(stop(m))
        }
    }
}

impl Machine {
    fn host_builtin(&mut self, kind: BuiltinKind, args: &Vec<Value>) -> (res: EResult)
        requires
            args.len() == builtin_arity(kind),
            is_host_builtin(kind),
        ensures
            final(self).out == old(self).out,
            final(self).ctors == old(self).ctors,
            final(self).output == old(self).output,
            host_args_ok(kind, args@) && old(self).pending().len() > 0 ==> final(self).pending() == old(self).pending().drop_first(),
            !(host_args_ok(kind, args@) && old(self).pending().len() > 0) ==> final(self).pending() == old(self).pending(),
            builtin_result(kind, args@, old(self).pending(), res),
            asks_when_exhausted(*final(self), res),
    {
        let a0 = &args[0];
        match kind {
            BuiltinKind::ReadFile => match a0 {
                Value::Str(p) => {
                    let rep = match self.host(HostRequest::ReadFile(bytes_copy(&**p))) {
                        Ok(rep) => rep,
                        Err(st) => {
                            return Err(st);
                        }
                    };
                    host_text(rep, "read_file: ")
                }
                _ => Err(ill_typed()),
            },
            BuiltinKind::WriteFile => match (a0, &args[1]) {
                (Value::Str(p), Value::Str(d)) => {
                    let rep = match self.host(HostRequest::WriteFile(bytes_copy(&**p), bytes_copy(&**d))) {
                        Ok(rep) => rep,
                        Err(st) => {
                            return Err(st);
                        }
                    };
                    match rep {
                        HostReply::Done => Ok(Value::Unit),
                        HostReply::Failed(m) => Err(stop(concat("write_file: ", m.as_str()))),
                        _ => Err(err_str("unexpected host reply")),
                    }
                }
                _ => Err(ill_typed()),
            },
            BuiltinKind::Argv => match a0 {
                Value::Int(i) => {
                    let rep = match self.host(HostRequest::Argv(*i)) {
                        Ok(rep) => rep,
                        Err(st) => {
                            return Err(st);
                        }
                    };
                    match rep {
                        HostReply::Text(t) => Ok(Value::Str(Rc::new(t))),
                        _ => Err(err_str("unexpected host reply")),
                    }
                }
                _ => Err(ill_typed()),
            },
            _ => match a0 {
                Value::Str(c) => {
                    let rep = match self.host(HostRequest::System(bytes_copy(&**c))) {
                        Ok(rep) => rep,
                        Err(st) => {
                            return Err(st);
                        }
                    };
                    match rep {
                        HostReply::Code(n) => Ok(Value::Int(n)),
                        _ => Err(err_str("unexpected host reply")),
                    }
                }
                _ => Err(ill_typed()),
            },
        }
    }

    fn call_builtin(&mut self, kind: BuiltinKind, args: Vec<Value>) -> (res: EResult)
        requires
            args.len() == builtin_arity(kind),
        ensures
            final(self).out == old(self).out,
            final(self).ctors == old(self).ctors,
            final(self).output@ == old(self).output@ + builtin_printed(kind, args@),
            host_args_ok(kind, args@) && old(self).pending().len() > 0 ==> final(self).pending() == old(self).pending().drop_first(),
            !(host_args_ok(kind, args@) && old(self).pending().len() > 0) ==> final(self).pending() == old(self).pending(),
            builtin_result(kind, args@, old(self).pending(), res),
            asks_when_exhausted(*final(self), res),
    {
        proof {
            assert(self.output@ =~= old(self).output@ + Seq::<u8>::empty());
        }
        if kind == BuiltinKind::ReadFile || kind == BuiltinKind::WriteFile || kind == BuiltinKind::Argv
            || kind == BuiltinKind::System {
            return self.host_builtin(kind, &args);
        }
        match kind {
            BuiltinKind::PrintInt => {
                if let Value::Int(n) = &args[0] {
                    let b = crate::strings::int_to_bytes(*n);
                    crate::strings::append_bytes(&mut self.output, &b);
                }
                Ok(Value::Unit)
            }
            BuiltinKind::PrintStr => {
                if let Value::Str(s) = &args[0] {
                    crate::strings::append_bytes(&mut self.output, &**s);
                }
                Ok(Value::Unit)
            }
            _ => pure_builtin(kind, &args),
        }
    }
}

} // verus!

verus! {

// ---------- evaluation ----------

/// How evaluation may change a machine: its configuration stays, printing
/// only appends to the output, and host answers are only used up from the
/// front.
pub open spec fn advances(a: Machine, b: Machine) -> bool {
    &&& b.out == a.out
    &&& b.ctors == a.ctors
    &&& a.output@.is_prefix_of(b.output@)
    &&& b.pending().len() <= a.pending().len()
    &&& b.pending() == a.pending().subrange(a.pending().len() - b.pending().len(), a.pending().len() as int)
}

/// A stop that asks the host comes only once every recorded answer is used.
pub open spec fn asks_when_exhausted(m: Machine, r: Result<Value, Stop>) -> bool {
    r matches Err(Stop::NeedHost(_)) ==> m.pending().len() == 0
}

proof fn lemma_advances_refl(a: Machine)
    ensures
        advances(a, a),
{
    assert(a.pending().subrange(0, a.pending().len() as int) =~= a.pending());
    assert(a.output@.subrange(0, a.output@.len() as int) =~= a.output@);
}

proof fn lemma_advances_trans(a: Machine, b: Machine, c: Machine)
    requires
        advances(a, b),
        advances(b, c),
    ensures
        advances(a, c),
{
    let la = a.pending().len() as int;
    let lb = b.pending().len() as int;
    let lc = c.pending().len() as int;
    assert(c.pending() =~= a.pending().subrange(la - lc, la));
    assert(a.output@ =~= c.output@.subrange(0, a.output@.len() as int));
}

/// The message of a variable that is not bound.
pub open spec fn unbound_message(name: Seq<char>) -> Seq<char> {
    "unbound variable `"@ + name + "`"@
}

fn too_deep() -> (s: Stop)
    ensures
        s matches Stop::Error(m) && m@ == "evaluation nested too deeply"@,
{
    err_str("evaluation nested too deeply")
}

} // verus!

verus! {

impl Machine {
    /// Evaluates `e` in `env` with at most `fuel` nested evaluation steps.
    fn eval_in(&mut self, e: &Expr, env: &Env, fuel: u64) -> (res: EResult)
        ensures
            advances(*old(self), *final(self)),
            asks_when_exhausted(*final(self), res),
            arith_value(*e, env_look(*env), fuel as nat) matches Some(v) ==> res == Ok::<Value, Stop>(v)
                && *final(self) == *old(self),
            fuel > 1 ==> (*e matches Expr::App(fx, ax) ==> (*fx matches Expr::Lam(p, b) ==> (p matches Pattern::Var(x) ==> (
            arith_value(*ax, env_look(*env), (fuel - 1) as nat) matches Some(va) ==> (arith_value(
                *b,
                bound_in(env_look(*env), x@, va),
                (fuel - 1) as nat,
            ) matches Some(w) ==> res == Ok::<Value, Stop>(w) && *final(self) == *old(self)))))),
            fuel > 0 ==> match *e {
                Expr::Case(sc, bs) => case_clause(res, *old(self), *final(self), *sc, bs@, env_look(*env), (fuel - 1) as nat),
                Expr::Lam(p, b) => is_closure_of(res, p, *b, *env) && *final(self) == *old(self),
                Expr::Bin(op, l, r) => bin_int_error(op, *l, *r, env_look(*env), (fuel - 1) as nat) matches Some(m) ==> is_error(res, m),
                Expr::Lit(Lit::Int(n)) => res == Ok::<Value, Stop>(Value::Int(n)),
                Expr::Lit(Lit::Bool(b)) => res == Ok::<Value, Stop>(Value::Bool(b)),
                Expr::Lit(Lit::Str(s)) => is_str(res, vstd::utf8::encode_utf8(s@)),
                Expr::Lit(Lit::Unit) => res == Ok::<Value, Stop>(Value::Unit),
                Expr::Var(n) => match env_lookup(*env, n@) {
                    Some(v) => res == Ok::<Value, Stop>(v),
                    None => is_error(res, unbound_message(n@)),
                },
                _ => true,
            },
        decreases fuel, 1nat,
    {
        proof {
            lemma_advances_refl(*self);
        }
        if fuel == 0 {
            return Err(too_deep());
        }
        match e {
            Expr::Lit(Lit::Int(n)) => Ok(Value::Int(*n)),
            Expr::Lit(Lit::Bool(b)) => Ok(Value::Bool(*b)),
            Expr::Lit(Lit::Str(s)) => Ok(Value::Str(Rc::new(crate::strings::utf8_of(s.as_str())))),
            Expr::Lit(Lit::Unit) => Ok(Value::Unit),
            Expr::Var(n) => match env.lookup_string(n) {
                Some(v) => Ok(v),
                None => Err(stop(concat3("unbound variable `", n.as_str(), "`"))),
            },
            Expr::Ctor(name) => match ctor_entry(&self.ctors, name) {
                None => Err(stop(concat3("unknown constructor `", name.as_str(), "`"))),
                Some(entry) => {
                    let (tag, arity) = entry;
                    if arity == 0 {
                        Ok(Value::Adt(Rc::new(CtorVal { name: name.clone(), tag, fields: Vec::new() })))
                    } else {
                        Ok(Value::Fun(Rc::new(Callable::CtorPartial { name: name.clone(), tag, arity, args: Vec::new() })))
                    }
                }
            },
            Expr::Lam(pat, body) => Ok(Value::Fun(Rc::new(Callable::Closure(ClosureData {
                group: None,
                pat: clone_pattern(pat),
                body: Rc::new(clone_expr(&**body)),
                env: env.share(),
            })))),
            Expr::App(f, x) => {
                let ghost m0 = *self;
                let fv = match self.eval_in(&**f, env, fuel - 1) {
                    Ok(v) => v,
                    Err(st) => {
                        return Err(st);
                    }
                };
                let ghost m1 = *self;
                let xv = match self.eval_in(&**x, env, fuel - 1) {
                    Ok(v) => v,
                    Err(st) => {
                        proof {
                            lemma_advances_trans(m0, m1, *self);
                        }
                        return Err(st);
                    }
                };
                let ghost m2 = *self;
                proof {
                    lemma_advances_trans(m0, m1, m2);
                    let fe = **f;
                    if fuel > 1 && fe is Lam && fe->Lam_0 is Var && closure_body(fv) is Some {
                        lemma_arith_same(closure_body(fv).unwrap(), *fe->Lam_1, bound_in(env_look(*env), fe->Lam_0->Var_0@, xv), (fuel - 1) as nat);
                    }
                }
                let r = self.apply(&fv, xv, fuel);
                proof {
                    lemma_advances_trans(m0, m2, *self);
                }
                r
            }
            Expr::Bin(op, l, r) => self.eval_bin(*op, &**l, &**r, env, fuel),
            Expr::If(c, t, f) => {
                let ghost m0 = *self;
                let cv = match self.eval_in(&**c, env, fuel - 1) {
                    Ok(v) => v,
                    Err(st) => {
                        return Err(st);
                    }
                };
                let ghost m1 = *self;
                proof {
                    lemma_advances_refl(m1);
                }
                let r = match cv {
                    Value::Bool(true) => self.eval_in(&**t, env, fuel - 1),
                    Value::Bool(false) => self.eval_in(&**f, env, fuel - 1),
                    _ => Err(err_str("`if` on a non-boolean")),
                };
                proof {
                    lemma_advances_trans(m0, m1, *self);
                }
                r
            }
            Expr::Case(scrut, branches) => self.eval_case(&**scrut, branches, env, fuel),
            Expr::Let { is_rec, name, rhs, body } => self.eval_let(*is_rec, name, &**rhs, &**body, env, fuel),
            Expr::Sequence(l, r) => {
                let ghost m0 = *self;
                match self.eval_in(&**l, env, fuel - 1) {
                    Ok(_) => {}
                    Err(st) => {
                        return Err(st);
                    }
                }
                let ghost m1 = *self;
                let res = self.eval_in(&**r, env, fuel - 1);
                proof {
                    lemma_advances_trans(m0, m1, *self);
                }
                res
            }
            Expr::Tuple(es) => self.eval_tuple(es, env, fuel),
            Expr::Ann(x, _) => self.eval_in(&**x, env, fuel - 1),
        }
    }

    fn eval_bin(&mut self, op: BinOp, l: &Expr, r: &Expr, env: &Env, fuel: u64) -> (res: EResult)
        requires
            fuel > 0,
        ensures
            advances(*old(self), *final(self)),
            asks_when_exhausted(*final(self), res),
            arith_bin(op, *l, *r, env_look(*env), fuel as nat) matches Some(v) ==> res == Ok::<Value, Stop>(v)
                && *final(self) == *old(self),
            bin_int_error(op, *l, *r, env_look(*env), (fuel - 1) as nat) matches Some(m) ==> is_error(res, m),
        decreases fuel, 0nat,
    {
        let ghost m0 = *self;
        let lv = match self.eval_in(l, env, fuel - 1) {
            Ok(v) => v,
            Err(st) => {
                return Err(st);
            }
        };
        let ghost m1 = *self;
        if op == BinOp::And || op == BinOp::Or {
            match lv {
                Value::Bool(b) => {
                    if b == (op == BinOp::Or) {
                        return Ok(Value::Bool(b));
                    }
                }
                _ => {
                    return Err(err_str("logical operator on a non-boolean"));
                }
            }
            let rv = self.eval_in(r, env, fuel - 1);
            proof {
                lemma_advances_trans(m0, m1, *self);
            }
            return match rv {
                Ok(Value::Bool(b)) => Ok(Value::Bool(b)),
                Ok(_) => Err(err_str("logical operator on a non-boolean")),
                Err(st) => Err(st),
            };
        }
        let rv = match self.eval_in(r, env, fuel - 1) {
            Ok(v) => v,
            Err(st) => {
                proof {
                    lemma_advances_trans(m0, m1, *self);
                }
                return Err(st);
            }
        };
        proof {
            lemma_advances_trans(m0, m1, *self);
        }
        self.binop(op, lv, rv)
    }

    fn eval_tuple(&mut self, es: &Vec<Expr>, env: &Env, fuel: u64) -> (res: EResult)
        requires
            fuel > 0,
        ensures
            advances(*old(self), *final(self)),
            asks_when_exhausted(*final(self), res),
            res matches Ok(v) ==> v matches Value::Tuple(vs) && vs@.len() == es@.len(),
        decreases fuel, 0nat,
    {
        let ghost m0 = *self;
        proof {
            lemma_advances_refl(m0);
        }
        let mut vs: Vec<Value> = Vec::new();
        let mut i: usize = 0;
        while i < es.len()
            invariant
                i <= es.len(),
                vs@.len() == i,
                fuel > 0,
                m0 == *old(self),
                advances(m0, *self),
            decreases es.len() - i,
        {
            let ghost m1 = *self;
            let v = match self.eval_in(&es[i], env, fuel - 1) {
                Ok(v) => v,
                Err(st) => {
                    proof {
                        lemma_advances_trans(m0, m1, *self);
                    }
                    return Err(st);
                }
            };
            proof {
                lemma_advances_trans(m0, m1, *self);
            }
            vs.push(v);
            i = i + 1;
        }
        Ok(Value::Tuple(Rc::new(vs)))
    }

    fn eval_case(&mut self, scrut: &Expr, branches: &Vec<(Pattern, Expr)>, env: &Env, fuel: u64) -> (res: EResult)
        requires
            fuel > 0,
        ensures
            advances(*old(self), *final(self)),
            asks_when_exhausted(*final(self), res),
            case_clause(res, *old(self), *final(self), *scrut, branches@, env_look(*env), (fuel - 1) as nat),
        decreases fuel, 0nat,
    {
        let ghost m0 = *self;
        let sv = match self.eval_in(scrut, env, fuel - 1) {
            Ok(v) => v,
            Err(st) => {
                return Err(st);
            }
        };
        let ghost pure = arith_value(*scrut, env_look(*env), (fuel - 1) as nat) is Some;
        let mut i: usize = 0;
        while i < branches.len()
            invariant
                fuel > 0,
                m0 == *old(self),
                advances(m0, *self),
                i <= branches.len(),
                pure == (arith_value(*scrut, env_look(*env), (fuel - 1) as nat) is Some),
                pure ==> *self == m0 && arith_value(*scrut, env_look(*env), (fuel - 1) as nat) == Some(sv),
                pure ==> first_branch(branches@, sv, m0.ctors@, 0) == first_branch(branches@, sv, m0.ctors@, i as int),
            decreases branches.len() - i,
        {
            let mut binds: Vec<(String, Value)> = Vec::new();
            proof {
                assert(binds_view(binds@) =~= Seq::<(Seq<char>, Value)>::empty());
            }
            let hit = match self.pat_match(&branches[i].0, &sv, &mut binds) {
                Ok(b) => b,
                Err(st) => {
                    proof {
                        if pure {
                            if let Err(n) = match_pat(branches@[i as int].0, sv, m0.ctors@) {
                                assert(first_branch(branches@, sv, m0.ctors@, i as int) == Some((i as int, Err::<Seq<(Seq<char>, Value)>, Seq<char>>(n))));
                            }
                        }
                    }
                    return Err(st);
                }
            };
            proof {
                if pure {
                    if let Ok(Some(b)) = match_pat(branches@[i as int].0, sv, m0.ctors@) {
                        assert(binds_view(binds@) =~= b);
                        assert(first_branch(branches@, sv, m0.ctors@, i as int) == Some((i as int, Ok::<Seq<(Seq<char>, Value)>, Seq<char>>(b))));
                    }
                }
            }
            if hit {
                let benv = bind_all(env.share(), binds);
                proof {
                    if pure {
                        assert forall|n: Seq<char>| #[trigger] env_look(benv)(n) == bound_all(env_look(*env), binds_view(binds@))(n) by {
                            lemma_last_bound(binds@, n);
                        }
                        assert(env_look(benv) =~= bound_all(env_look(*env), binds_view(binds@)));
                    }
                }
                let ghost m1 = *self;
                let r = self.eval_in(&branches[i].1, &benv, fuel - 1);
                proof {
                    lemma_advances_trans(m0, m1, *self);
                }
                return r;
            }
            i = i + 1;
        }
        let shown = show_value(&sv);
        let text = text_of_bytes(&shown);
        Err(stop(concat("non-exhaustive pattern match on ", text.as_str())))
    }

    fn eval_let(&mut self, is_rec: bool, name: &String, rhs: &Expr, body: &Expr, env: &Env, fuel: u64) -> (res: EResult)
        requires
            fuel > 0,
        ensures
            advances(*old(self), *final(self)),
            asks_when_exhausted(*final(self), res),
            !is_rec ==> (arith_value(*rhs, env_look(*env), (fuel - 1) as nat) matches Some(v) ==> (arith_value(
                *body,
                bound_in(env_look(*env), name@, v),
                (fuel - 1) as nat,
            ) matches Some(w) ==> res == Ok::<Value, Stop>(w) && *final(self) == *old(self))),
        decreases fuel, 0nat,
    {
        let ghost m0 = *self;
        let rv = match self.eval_in(rhs, env, fuel - 1) {
            Ok(v) => v,
            Err(st) => {
                return Err(st);
            }
        };
        let rv = if is_rec {
            match recursive_value(name, rv) {
                Ok(v) => v,
                Err(st) => {
                    return Err(st);
                }
            }
        } else {
            rv
        };
        let nenv = env.bind(name.as_str(), rv);
        proof {
            assert(env_look(nenv) =~= bound_in(env_look(*env), name@, rv));
        }
        let ghost m1 = *self;
        let r = self.eval_in(body, &nenv, fuel - 1);
        proof {
            lemma_advances_trans(m0, m1, *self);
        }
        r
    }

    /// Applies a function value to one argument.
    fn apply(&mut self, f: &Value, arg: Value, fuel: u64) -> (res: EResult)
        requires
            fuel > 0,
        ensures
            advances(*old(self), *final(self)),
            asks_when_exhausted(*final(self), res),
            match *f {
                Value::Fun(c) => match *c {
                    Callable::Builtin { kind, args } => args@.len() + 1 == builtin_arity(kind) ==> (
                        builtin_result(kind, args@.push(arg), old(self).pending(), res)
                        && final(self).output@ == old(self).output@ + builtin_printed(kind, args@.push(arg))),
                    Callable::CtorPartial { name, tag, arity, args } => args@.len() + 1 == arity ==> (
                        res matches Ok(Value::Adt(cv)) && cv.name == name && cv.tag == tag
                        && cv.fields@ == args@.push(arg)),
                    Callable::Closure(cd) => cd.group is None ==> (cd.pat matches Pattern::Var(x) ==> (arith_value(
                        *cd.body,
                        bound_in(env_look(cd.env), x@, arg),
                        (fuel - 1) as nat,
                    ) matches Some(w) ==> res == Ok::<Value, Stop>(w) && *final(self) == *old(self))),
                },
                _ => res matches Err(Stop::Error(_)),
            },
        decreases fuel, 0nat,
    {
        proof {
            lemma_advances_refl(*self);
        }
        match f {
            Value::Fun(rc) => match &**rc {
                Callable::Closure(cd) => {
                    let base = match &cd.group {
                        Some(group) => bind_group(&cd.env, group),
                        None => cd.env.share(),
                    };
                    let binds = match self.match_pattern(&cd.pat, &arg) {
                        Ok(b) => b,
                        Err(st) => {
                            return Err(st);
                        }
                    };
                    let ghost bs = binds@;
                    let env = bind_all(base, binds);
                    proof {
                        if cd.group is None && cd.pat is Var {
                            let x = cd.pat->Var_0;
                            assert(binds_view(bs) == seq![(x@, arg)]);
                            assert forall|n: Seq<char>| #[trigger] env_look(env)(n) == bound_in(env_look(cd.env), x@, arg)(n) by {
                                lemma_last_bound(bs, n);
                                let bv = binds_view(bs);
                                assert(bv.drop_last() =~= Seq::<(Seq<char>, Value)>::empty());
                                reveal_with_fuel(last_bound, 2);
                                assert(last_bound(bv, n) == (if n == x@ { Some(arg) } else { None }));
                            }
                            assert(env_look(env) =~= bound_in(env_look(cd.env), x@, arg));
                        }
                    }
                    self.eval_in(&*cd.body, &env, fuel - 1)
                }
                Callable::Builtin { kind, args } => {
                    let mut all = clone_values(args);
                    all.push(arg);
                    if all.len() == kind.arity() {
                        let ghost m0 = *self;
                        let r = self.call_builtin(*kind, all);
                        proof {
                            let a = m0.pending();
                            let b = self.pending();
                            assert(b =~= a.subrange(a.len() - b.len(), a.len() as int));
                            assert(m0.output@ =~= self.output@.subrange(0, m0.output@.len() as int));
                        }
                        r
                    } else {
                        Ok(Value::Fun(Rc::new(Callable::Builtin { kind: *kind, args: all })))
                    }
                }
                Callable::CtorPartial { name, tag, arity, args } => {
                    let mut all = clone_values(args);
                    all.push(arg);
                    if all.len() == *arity {
                        Ok(Value::Adt(Rc::new(CtorVal { name: name.clone(), tag: *tag, fields: all })))
                    } else {
                        Ok(Value::Fun(Rc::new(Callable::CtorPartial { name: name.clone(), tag: *tag, arity: *arity, args: all })))
                    }
                }
            },
            _ => {
                let shown = show_value(f);
                let text = text_of_bytes(&shown);
                Err(stop(concat("cannot apply non-function value ", text.as_str())))
            }
        }
    }
}

/// The value bound by `let rec name = v`: a closure gets itself as its
/// recursive group; another function value is an error.
fn recursive_value(name: &String, v: Value) -> (r: Result<Value, Stop>)
    ensures
        match v {
            Value::Fun(c) => match *c {
                Callable::Closure(_) => r matches Ok(Value::Fun(d)) && (*d is Closure),
                _ => is_error(r, "`let rec "@ + name@ + "` must be a function"@),
            },
            _ => r == Ok::<Value, Stop>(v),
        },
{
    match &v {
        Value::Fun(rc) => match &**rc {
            Callable::Closure(_) => {
                let mut members: Vec<(String, Value)> = Vec::new();
                members.push((name.clone(), clone_value(&v)));
                let group = Rc::new(members);
                Ok(attach_group(&group, &v))
            }
            _ => Err(stop(concat3("`let rec ", name.as_str(), "` must be a function"))),
        },
        _ => Ok(v),
    }
}

} // verus!

verus! {

impl Machine {
    /// Defines one definition or a `let rec ... and ...` group on top of
    /// `globals`: each member is evaluated in `globals`, and closures get
    /// the whole group as their recursive group.
    #[verifier::loop_isolation(false)]
    fn define_rec_group(&mut self, defs: &Vec<&Def>, globals: &Env) -> (r: Result<Env, Stop>)
        ensures
            advances(*old(self), *final(self)),
            r matches Err(Stop::NeedHost(_)) ==> final(self).pending().len() == 0,
            (exists|a: int, b: int| 0 <= a < b < defs@.len() && #[trigger] defs@[a].name@ == #[trigger] defs@[b].name@) ==> (
            r matches Err(Stop::Error(m)) && *final(self) == *old(self) && exists|a: int, b: int|
                0 <= a < b < defs@.len() && #[trigger] defs@[a].name@ == #[trigger] defs@[b].name@ && m@
                    == "duplicate definition `"@ + defs@[a].name@ + "`"@),
    {
        proof {
            lemma_advances_refl(*self);
        }
        let mut i: usize = 0;
        while i < defs.len()
            invariant
                i <= defs.len(),
                advances(*old(self), *self),
                *self == *old(self),
                forall|a: int, b: int| 0 <= a < i && a < b < defs@.len() ==> #[trigger] defs@[a].name@ != #[trigger] defs@[b].name@,
            decreases defs.len() - i,
        {
            let mut j: usize = i + 1;
            while j < defs.len()
                invariant
                    i < j <= defs.len(),
                    advances(*old(self), *self),
                    *self == *old(self),
                    forall|b: int| i < b < j ==> defs@[i as int].name@ != #[trigger] defs@[b].name@,
                decreases defs.len() - j,
            {
                if defs[i].name == defs[j].name {
                    return Err(stop(concat3("duplicate definition `", defs[i].name.as_str(), "`")));
                }
                j = j + 1;
            }
            i = i + 1;
        }
        let ghost m0 = *self;
        let mut pairs: Vec<(String, Value)> = Vec::new();
        let mut k: usize = 0;
        while k < defs.len()
            invariant
                k <= defs.len(),
                m0 == *old(self),
                advances(m0, *self),
            decreases defs.len() - k,
        {
            let d: &Def = defs[k];
            let wrapped = wrap_params(clone_patterns(&d.params), clone_expr(&d.body));
            let ghost m1 = *self;
            let v = match self.eval_in(&wrapped, globals, EVAL_DEPTH) {
                Ok(v) => v,
                Err(st) => {
                    proof {
                        lemma_advances_trans(m0, m1, *self);
                    }
                    return Err(st);
                }
            };
            proof {
                lemma_advances_trans(m0, m1, *self);
            }
            let is_other_fun = match &v {
                Value::Fun(rc) => match &**rc {
                    Callable::Closure(_) => false,
                    _ => true,
                },
                _ => false,
            };
            if is_other_fun {
                return Err(stop(concat3("`let rec ", d.name.as_str(), "` must be a function")));
            }
            pairs.push((d.name.clone(), v));
            k = k + 1;
        }
        let group = Rc::new(pairs);
        Ok(bind_group(globals, &group))
    }

    /// Runs a checked program: binds the builtins, defines the items in
    /// order and applies `main` to `()` when it is a function.
    pub fn run_items(&mut self, prog: &Program) -> (r: EResult)
        ensures
            advances(*old(self), *final(self)),
            asks_when_exhausted(*final(self), r),
            r matches Ok(v) ==> v == Value::Unit,
            prog.items@.len() == 0 ==> r == Ok::<Value, Stop>(Value::Unit) && *final(self) == *old(self),
            (exists|i: int| 0 <= i < prog.items@.len() && group_repeats_name(#[trigger] prog.items@[i])) ==> r is Err,
            prog.items@.len() > 0 && group_repeats_name(prog.items@[0]) ==> (r matches Err(Stop::Error(m)) && duplicate_message(
                prog.items@[0],
                m@,
            )) && *final(self) == *old(self),
    {
        proof {
            lemma_advances_refl(*self);
        }
        let mut globals = Env::empty();
        let all = BuiltinKind::all();
        let mut b: usize = 0;
        while b < all.len()
            invariant
                b <= all.len(),
                env_lookup(globals, "main"@) is None,
            decreases all.len() - b,
        {
            let k = all[b];
            proof {
                lemma_no_builtin_main(k);
            }
            globals = globals.bind(k.name(), Value::Fun(Rc::new(Callable::Builtin { kind: k, args: Vec::new() })));
            b = b + 1;
        }
        let ghost m0 = *self;
        let mut i: usize = 0;
        while i < prog.items.len()
            invariant
                i <= prog.items.len(),
                m0 == *old(self),
                advances(m0, *self),
                prog.items@.len() == 0 ==> env_lookup(globals, "main"@) is None && *self == *old(self),
                forall|k: int| 0 <= k < i ==> !group_repeats_name(#[trigger] prog.items@[k]),
                i == 0 ==> *self == *old(self),
            decreases prog.items.len() - i,
        {
            let ghost m1 = *self;
            let defined = match &prog.items[i] {
                Item::Ty(_) => Ok(globals.share()),
                Item::Def(d) => {
                    let defs: Vec<&Def> = vec![d];
                    self.define_rec_group(&defs, &globals)
                }
                Item::RecGroup(ds) => {
                    let mut defs: Vec<&Def> = Vec::new();
                    let mut j: usize = 0;
                    while j < ds.len()
                        invariant
                            j <= ds.len(),
                            defs@.len() == j,
                            forall|q: int| 0 <= q < j ==> #[trigger] defs@[q] == ds@[q],
                        decreases ds.len() - j,
                    {
                        defs.push(&ds[j]);
                        j = j + 1;
                    }
                    proof {
                        if group_repeats_name(prog.items@[i as int]) {
                            let (a, b) = choose|a: int, b: int| 0 <= a < b < ds@.len() && #[trigger] ds@[a].name@ == #[trigger] ds@[b].name@;
                            assert(defs@[a] == ds@[a] && defs@[b] == ds@[b]);
                        }
                    }
                    let rr = self.define_rec_group(&defs, &globals);
                    proof {
                        if let Err(Stop::Error(m)) = &rr {
                            if group_repeats_name(prog.items@[i as int]) {
                                let (a, b) = choose|a: int, b: int| 0 <= a < b < defs@.len() && #[trigger] defs@[a].name@ == #[trigger] defs@[b].name@
                                    && m@ == "duplicate definition `"@ + defs@[a].name@ + "`"@;
                                assert(defs@[a] == ds@[a] && defs@[b] == ds@[b]);
                                assert(duplicate_message(prog.items@[i as int], m@));
                            }
                        }
                    }
                    rr
                }
            };
            proof {
                lemma_advances_refl(m1);
                lemma_advances_trans(m0, m1, *self);
            }
            globals = match defined {
                Ok(g) => g,
                Err(st) => {
                    return Err(st);
                }
            };
            i = i + 1;
        }
        match globals.lookup("main") {
            Some(mainv) => {
                if let Value::Fun(_) = &mainv {
                    let ghost m1 = *self;
                    let r = self.apply(&mainv, Value::Unit, EVAL_DEPTH);
                    proof {
                        lemma_advances_trans(m0, m1, *self);
                    }
                    if let Err(st) = r {
                        return Err(st);
                    }
                }
            }
            None => {}
        }
        Ok(Value::Unit)
    }

    /// Evaluates `e` in `env`.
    pub fn eval(&mut self, e: &Expr, env: &Env) -> (res: EResult)
        ensures
            advances(*old(self), *final(self)),
            asks_when_exhausted(*final(self), res),
            arith_value(*e, env_look(*env), EVAL_DEPTH as nat) matches Some(v) ==> res == Ok::<Value, Stop>(v)
                && *final(self) == *old(self),
            match *e {
                Expr::Case(sc, bs) => case_clause(res, *old(self), *final(self), *sc, bs@, env_look(*env), (EVAL_DEPTH - 1) as nat),
                Expr::Lam(p, b) => is_closure_of(res, p, *b, *env) && *final(self) == *old(self),
                Expr::Bin(op, l, r) => bin_int_error(op, *l, *r, env_look(*env), (EVAL_DEPTH - 1) as nat) matches Some(m) ==> is_error(
                    res,
                    m,
                ),
                Expr::Lit(Lit::Int(n)) => res == Ok::<Value, Stop>(Value::Int(n)),
                Expr::Lit(Lit::Bool(b)) => res == Ok::<Value, Stop>(Value::Bool(b)),
                Expr::Lit(Lit::Str(s)) => is_str(res, vstd::utf8::encode_utf8(s@)),
                Expr::Lit(Lit::Unit) => res == Ok::<Value, Stop>(Value::Unit),
                Expr::Var(n) => match env_lookup(*env, n@) {
                    Some(v) => res == Ok::<Value, Stop>(v),
                    None => is_error(res, unbound_message(n@)),
                },
                _ => true,
            },
    {
        self.eval_in(e, env, EVAL_DEPTH)
    }
}

} // verus!
