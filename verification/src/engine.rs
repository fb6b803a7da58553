//! Engines that run the code of a node.

use crate::strmap::{lookup, put};
use crate::strmap::StrMap;
use crate::text::text_lt;
use crate::value::{bind, Value};
use crate::value::{lemma_dict_view, pair_vals, Val};
use vstd::prelude::*;

verus! {

/// What runs the code of a node on its input.
pub trait ExecutionEngine {
    fn execute(&self, code: &str, input: Value) -> Result<Value, String>;
}

/// A map that tells which engine was given which code and input.
pub open spec fn echo_val(engine: Seq<char>, code: Seq<char>, input: Val) -> Val {
    Val::Dict(
        seq![("code"@, Val::Text(code)), ("engine"@, Val::Text(engine)), ("input"@, input)],
    )
}

/// Tells which engine was given which code and input.
fn echo(engine: &str, code: &str, input: Value) -> (r: Value)
    ensures
        r@ == echo_val(engine@, code@, input@),
{
    let mut map: StrMap<Value> = StrMap::new();
    assert(pair_vals(map.pairs()) =~= Seq::<(Seq<char>, Val)>::empty());
    bind(&mut map, "engine", Value::String(engine.to_owned()));
    let ghost s1 = pair_vals(map.pairs());
    bind(&mut map, "code", Value::String(code.to_owned()));
    let ghost s2 = pair_vals(map.pairs());
    bind(&mut map, "input", input);
    proof {
        reveal_strlit("engine");
        reveal_strlit("code");
        reveal_strlit("input");
        assert(text_lt("code"@, "engine"@));
        assert(text_lt("engine"@, "input"@));
        assert(text_lt("code"@, "input"@));
        assert(!text_lt("input"@, "code"@) && !text_lt("input"@, "engine"@));
        reveal_with_fuel(put, 4);
        assert(s1 =~= seq![("engine"@, Val::Text(engine@))]);
        assert(s2 =~= seq![("code"@, Val::Text(code@)), ("engine"@, Val::Text(engine@))]);
        assert(pair_vals(map.pairs()) =~= echo_val(engine@, code@, input@)->Dict_0);
        lemma_dict_view(map);
    }
    Value::Dict(map)
}

/// An engine that tells what it was given.
#[derive(Debug)]
pub struct NativeEngine;

impl NativeEngine {
    pub fn new() -> (r: NativeEngine)
        ensures
            r == NativeEngine,
    {
        NativeEngine
    }
}

impl Default for NativeEngine {
    fn default() -> (r: Self)
        ensures
            r == NativeEngine,
    {
        NativeEngine::new()
    }
}

impl ExecutionEngine for NativeEngine {
    fn execute(&self, code: &str, input: Value) -> (r: Result<Value, String>)
        ensures
            r matches Ok(v) && v@ == echo_val("native"@, code@, input@),
    {
        Ok(echo("native", code, input))
    }
}

/// An engine that tells what it was given.
#[derive(Debug)]
pub struct UiuaEngine;

impl UiuaEngine {
    pub fn new() -> (r: UiuaEngine)
        ensures
            r == UiuaEngine,
    {
        UiuaEngine
    }
}

impl Default for UiuaEngine {
    fn default() -> (r: Self)
        ensures
            r == UiuaEngine,
    {
        UiuaEngine::new()
    }
}

impl ExecutionEngine for UiuaEngine {
    fn execute(&self, code: &str, input: Value) -> (r: Result<Value, String>)
        ensures
            r matches Ok(v) && v@ == echo_val("uiua"@, code@, input@),
    {
        Ok(echo("uiua", code, input))
    }
}

/// What an engine tells: under `engine` its name, under `code` the code and under `input` the input
/// that it was given, and nothing else.
pub proof fn lemma_echo_tells(engine: Seq<char>, code: Seq<char>, input: Val)
    ensures
        echo_val(engine, code, input) matches Val::Dict(s) && s.len() == 3 && lookup(s, "engine"@)
            == Some(Val::Text(engine)) && lookup(s, "code"@) == Some(Val::Text(code)) && lookup(
            s,
            "input"@,
        ) == Some(input),
{
    reveal_strlit("engine");
    reveal_strlit("code");
    reveal_strlit("input");
    assert("engine"@.len() == 6 && "code"@.len() == 4 && "input"@.len() == 5);
    let s = echo_val(engine, code, input)->Dict_0;
    crate::record::lemma_lookup_first(s, 0);
    crate::record::lemma_lookup_first(s, 1);
    crate::record::lemma_lookup_first(s, 2);
}

} // verus!
