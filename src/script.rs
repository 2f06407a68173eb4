//! The Lua interpreter that one run evaluates its blocks in.
use vstd::prelude::*;

use crate::error::RunError;
use crate::request::{pair_views, RequestContext};

verus! {

#[verifier::external_type_specification]
#[verifier::external_body]
pub struct ExLua(mlua::Lua);

#[verifier::external_type_specification]
#[verifier::external_body]
pub struct ExLuaError(mlua::Error);

#[verifier::external_type_specification]
#[verifier::external_body]
pub struct ExLuaTable(mlua::Table);

#[verifier::external_type_specification]
#[verifier::external_body]
pub struct ExLuaChunk<'a>(mlua::Chunk<'a>);

/// Relies on mlua::Lua::new_with: a fresh interpreter with the safe standard
/// libraries, turning Rust panics inside callbacks into Lua errors.
#[verifier::external_body]
fn new_interpreter() -> (r: Result<mlua::Lua, mlua::Error>) {
    mlua::Lua::new_with(mlua::StdLib::ALL_SAFE, mlua::LuaOptions::new().catch_rust_panics(true))
}

/// Relies on mlua::Lua::load: wraps `source` as a chunk of this interpreter,
/// to be compiled when it runs.
#[verifier::external_body]
fn load_chunk<'a>(lua: &mlua::Lua, source: &'a str) -> (r: mlua::Chunk<'a>) {
    lua.load(source)
}

/// Relies on mlua::Chunk::eval: runs the chunk as an expression, or else as
/// statements, against the interpreter's globals, and converts its value to
/// text. What comes back depends on the interpreter's state.
#[verifier::external_body]
fn eval_text(chunk: mlua::Chunk) -> (r: Result<String, mlua::Error>) {
    chunk.eval::<String>()
}

/// Relies on mlua::Lua::globals: the table of global bindings.
#[verifier::external_body]
fn globals_of(lua: &mlua::Lua) -> (r: mlua::Table) {
    lua.globals()
}

/// Relies on mlua::Lua::create_table: a new empty table.
#[verifier::external_body]
fn new_table(lua: &mlua::Lua) -> (r: Result<mlua::Table, mlua::Error>) {
    lua.create_table()
}

/// Relies on mlua::Table::set, with a text key and a text value.
#[verifier::external_body]
fn set_text(t: &mlua::Table, key: &str, value: &str) -> (r: Result<(), mlua::Error>) {
    t.set(key, value)
}

/// Relies on mlua::Table::set, with a text key and an integer value.
#[verifier::external_body]
fn set_number(t: &mlua::Table, key: &str, value: u8) -> (r: Result<(), mlua::Error>) {
    t.set(key, value)
}

/// Relies on mlua::Table::set, with a text key and a table value.
#[verifier::external_body]
fn set_table(t: &mlua::Table, key: &str, value: mlua::Table) -> (r: Result<(), mlua::Error>) {
    t.set(key, value)
}

/// The value a global binding was given.
pub enum GlobalValue {
    Text(Seq<char>),
    Number(u8),
    /// A table from text keys to text values, set entry by entry in this
    /// order, so that a repeated key ends with its last value.
    Table(Seq<(Seq<char>, Seq<char>)>),
}

/// The globals installed for a request, in the order they are set.
pub open spec fn request_globals(c: RequestContext) -> Seq<(Seq<char>, GlobalValue)> {
    seq![
        ("_PATH"@, GlobalValue::Text(c.path@)),
        ("_METHOD"@, GlobalValue::Text(c.method@)),
        ("_VERSION"@, GlobalValue::Number(c.version)),
        ("_HEADERS"@, GlobalValue::Table(pair_views(c.headers@))),
        ("_BODY"@, GlobalValue::Text(c.body@)),
    ]
}

/// The text of a successful evaluation; `None` for a failed one.
pub open spec fn outcome(r: &Result<String, RunError>) -> Option<Seq<char>> {
    match r {
        Ok(t) => Some(t@),
        Err(_) => None,
    }
}

/// The environment that every block of one run is evaluated in.
pub struct ScriptEnvironment {
    lua: mlua::Lua,
    /// The globals installed, in order.
    installed: Ghost<Seq<(Seq<char>, GlobalValue)>>,
    /// Each source evaluated, in order, with its text or `None` on failure.
    evaluated: Ghost<Seq<(Seq<char>, Option<Seq<char>>)>>,
}

/// Maps an interpreter error to the run's error.
fn interp<T>(r: Result<T, mlua::Error>) -> (o: Result<T, RunError>)
    ensures
        r is Ok ==> o == Ok::<T, RunError>(r->Ok_0),
        r is Err ==> o == Err::<T, RunError>(RunError::EvaluationFailure),
{
    match r {
        Ok(v) => Ok(v),
        Err(_) => Err(RunError::EvaluationFailure),
    }
}

impl ScriptEnvironment {
    /// The globals installed in this environment, in the order they were set.
    pub closed spec fn bindings(&self) -> Seq<(Seq<char>, GlobalValue)> {
        self.installed@
    }

    /// The sources evaluated in this environment, in order, each with the
    /// text it gave, or `None` where its evaluation failed.
    pub closed spec fn evaluations(&self) -> Seq<(Seq<char>, Option<Seq<char>>)> {
        self.evaluated@
    }

    /// A fresh environment, with the request's bindings installed when there
    /// is a request: `_PATH`, `_METHOD`, `_VERSION`, `_HEADERS` (a table from
    /// header name to value, filled in request order) and `_BODY`.
    pub fn new(request: Option<&RequestContext>) -> (r: Result<ScriptEnvironment, RunError>)
        ensures
            r matches Err(e) ==> e == RunError::EvaluationFailure,
            r matches Ok(env) ==> env.evaluations() == Seq::<(Seq<char>, Option<Seq<char>>)>::empty(),
            r matches Ok(env) ==> env.bindings() == match request {
                Some(c) => request_globals(*c),
                None => Seq::empty(),
            },
    {
        let lua = interp(new_interpreter())?;
        let ghost mut bound: Seq<(Seq<char>, GlobalValue)> = Seq::empty();
        if let Some(c) = request {
            let globals = globals_of(&lua);
            interp(set_text(&globals, "_PATH", c.path.as_str()))?;
            proof {
                bound = bound.push(("_PATH"@, GlobalValue::Text(c.path@)));
            }
            interp(set_text(&globals, "_METHOD", c.method.as_str()))?;
            proof {
                bound = bound.push(("_METHOD"@, GlobalValue::Text(c.method@)));
            }
            interp(set_number(&globals, "_VERSION", c.version))?;
            proof {
                bound = bound.push(("_VERSION"@, GlobalValue::Number(c.version)));
            }
            let headers = interp(new_table(&lua))?;
            let ghost mut entries: Seq<(Seq<char>, Seq<char>)> = Seq::empty();
            let mut i: usize = 0;
            while i < c.headers.len()
                invariant
                    i <= c.headers@.len(),
                    entries == pair_views(c.headers@).take(i as int),
                decreases c.headers@.len() - i,
            {
                let name = c.headers[i].0.as_str();
                let value = c.headers[i].1.as_str();
                interp(set_text(&headers, name, value))?;
                proof {
                    entries = entries.push((name@, value@));
                }
                i = i + 1;
                assert(entries =~= pair_views(c.headers@).take(i as int));
            }
            assert(entries =~= pair_views(c.headers@));
            interp(set_table(&globals, "_HEADERS", headers))?;
            proof {
                bound = bound.push(("_HEADERS"@, GlobalValue::Table(entries)));
            }
            interp(set_text(&globals, "_BODY", c.body.as_str()))?;
            proof {
                bound = bound.push(("_BODY"@, GlobalValue::Text(c.body@)));
                assert(bound =~= request_globals(*c));
            }
        }
        Ok(ScriptEnvironment { lua, installed: Ghost(bound), evaluated: Ghost(Seq::empty()) })
    }

    /// Evaluates one source in this environment; its value must be text (or
    /// a number, which Lua turns into text). The evaluation is recorded with
    /// its outcome.
    pub fn eval(&mut self, source: &str) -> (r: Result<String, RunError>)
        ensures
            r matches Err(e) ==> e == RunError::EvaluationFailure,
            final(self).bindings() == old(self).bindings(),
            final(self).evaluations() == old(self).evaluations().push((source@, outcome(&r))),
    {
        let r = interp(eval_text(load_chunk(&self.lua, source)));
        proof {
            self.evaluated@ = self.evaluated@.push((source@, outcome(&r)));
        }
        r
    }
}

} // verus!
