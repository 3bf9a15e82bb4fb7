//! Running the scripts of a page.
//!
//! A `lua` element holds a script: the text at its start. The script runs in a
//! sandbox of its own, with a table `htmlua` whose `print` and `println` write
//! to a buffer, and what it wrote stands in the element's place as text.

use vstd::prelude::*;
use vstd::string::StringExecFns;
use std::rc::Rc;
use std::cell::RefCell;
use crate::splice::{
    lemma_elements_single, lemma_replace_nothing, padded, plan_view, replace_elements, replaced,
};
use crate::error::PageError;
use crate::text::strings_view;
use crate::tree::{DataModel, Node, Tree, borrowed_view, elements, forest_view, select_all};

verus! {

#[verifier::external_type_specification]
#[verifier::external_body]
#[verifier::reject_recursive_types(T)]
pub struct ExRefCell<T: ?Sized>(RefCell<T>);

#[verifier::external_type_specification]
#[verifier::external_body]
pub struct ExLua(mlua::Lua);

#[verifier::external_type_specification]
#[verifier::external_body]
pub struct ExTable(mlua::Table);

#[verifier::external_type_specification]
#[verifier::external_body]
pub struct ExFunction(mlua::Function);

#[verifier::external_type_specification]
#[verifier::external_body]
pub struct ExChunk<'a>(mlua::chunk::Chunk<'a>);

#[verifier::external_type_specification]
#[verifier::external_body]
pub struct ExLuaError(mlua::Error);

/// What `print` does: `text` is appended to `buffer`.
pub fn write_text(buffer: &mut String, text: &str)
    ensures
        final(buffer)@ == old(buffer)@ + text@,
{
    buffer.append(text);
}

/// What `println` does: `text` and a line feed are appended to `buffer`.
pub fn write_line(buffer: &mut String, text: &str)
    ensures
        final(buffer)@ == old(buffer)@ + text@ + seq!['\n'],
{
    buffer.append(text);
    buffer.push('\n');
    assert(buffer@ =~= old(buffer)@ + text@ + seq!['\n']);
}

/// `mlua::Lua::new`: a new Lua state with the safe standard libraries.
#[verifier::external_body]
fn new_sandbox() -> (lua: mlua::Lua) {
    mlua::Lua::new()
}

/// `RefCell::new`: a cell that holds `text`.
#[verifier::external_body]
fn new_buffer(text: String) -> (buffer: RefCell<String>) {
    RefCell::new(text)
}

/// `RefCell::borrow`: a copy of what the cell holds now. Nothing is claimed of
/// it: the functions of a sandbox write to the cell.
#[verifier::external_body]
fn read_buffer(buffer: &RefCell<String>) -> (written: String) {
    buffer.borrow().clone()
}

/// What a table holds for scripts to write with: under each name of a writer,
/// whether that writer ends what it writes with a line feed.
pub uninterp spec fn table_writers(table: mlua::Table) -> Map<Seq<char>, bool>;

/// Whether a function of Lua that writes to a buffer ends what it writes with
/// a line feed.
pub uninterp spec fn ends_line(function: mlua::Function) -> bool;

/// No writer under any name.
pub open spec fn no_writers() -> Map<Seq<char>, bool> {
    Map::empty()
}

/// `mlua::Lua::create_table`: a new table that holds nothing.
#[verifier::external_body]
fn new_table(lua: &mlua::Lua) -> (table: Result<mlua::Table, mlua::Error>)
    ensures
        table is Ok ==> table_writers(table->Ok_0) == no_writers(),
{
    lua.create_table()
}

/// `mlua::Lua::create_function`: a function of Lua that hands the text it is
/// called with to [`write_line`], together with the buffer. So it ends what it
/// writes with a line feed.
#[verifier::external_body]
fn line_writer(lua: &mlua::Lua, stdout: &Rc<RefCell<String>>) -> (function: Result<
    mlua::Function,
    mlua::Error,
>)
    ensures
        function is Ok ==> ends_line(function->Ok_0),
{
    let buffer = stdout.clone();
    lua.create_function(move |_, text: String| Ok(write_line(&mut buffer.borrow_mut(), &text)))
}

/// `mlua::Lua::create_function`: a function of Lua that hands the text it is
/// called with to [`write_text`], together with the buffer. So it ends what it
/// writes with no line feed.
#[verifier::external_body]
fn text_writer(lua: &mlua::Lua, stdout: &Rc<RefCell<String>>) -> (function: Result<
    mlua::Function,
    mlua::Error,
>)
    ensures
        function is Ok ==> !ends_line(function->Ok_0),
{
    let buffer = stdout.clone();
    lua.create_function(move |_, text: String| Ok(write_text(&mut buffer.borrow_mut(), &text)))
}

/// `mlua::Table::set`: puts a function under a name and hands the table back.
/// The table then holds the function under that name, and what it held under
/// other names.
#[verifier::external_body]
fn set_function(table: mlua::Table, name: &str, function: mlua::Function) -> (outcome: Result<
    mlua::Table,
    mlua::Error,
>)
    ensures
        outcome is Ok ==> table_writers(outcome->Ok_0) == table_writers(table).insert(
            name@,
            ends_line(function),
        ),
{
    table.set(name, function)?;
    Ok(table)
}

/// The writers of the table that scripts see as `htmlua`: `println` ends what
/// it writes with a line feed, `print` does not.
pub open spec fn stdlib_writers() -> Map<Seq<char>, bool> {
    no_writers().insert("println"@, true).insert("print"@, false)
}

/// The table that scripts see as `htmlua`. It holds two writers to `stdout`:
/// `println`, made by [`line_writer`], and `print`, made by [`text_writer`].
/// The first step that the interpreter refuses ends the making with its error.
pub fn create_htmlua_stdlib(l: &mlua::Lua, stdout: &Rc<RefCell<String>>) -> (table: Result<
    mlua::Table,
    mlua::Error,
>)
    ensures
        table is Ok ==> table_writers(table->Ok_0) == stdlib_writers(),
{
    let table = match new_table(l) {
        Ok(table) => table,
        Err(error) => {
            return Err(error);
        },
    };
    let println = match line_writer(l, stdout) {
        Ok(function) => function,
        Err(error) => {
            return Err(error);
        },
    };
    let table = match set_function(table, "println", println) {
        Ok(table) => table,
        Err(error) => {
            return Err(error);
        },
    };
    let print = match text_writer(l, stdout) {
        Ok(function) => function,
        Err(error) => {
            return Err(error);
        },
    };
    match set_function(table, "print", print) {
        Ok(table) => Ok(table),
        Err(error) => Err(error),
    }
}

/// `mlua::Lua::globals`: the table of the global names of a state.
#[verifier::external_body]
fn globals(lua: &mlua::Lua) -> (table: mlua::Table) {
    lua.globals()
}

/// `mlua::Table::set`: puts a table under a name. Nothing is claimed of the
/// outcome.
#[verifier::external_body]
fn set_entry(table: &mlua::Table, name: &str, value: mlua::Table) -> (outcome: Result<
    (),
    mlua::Error,
>) {
    table.set(name, value)
}

/// `mlua::Lua::load`: a script, ready to run in a state.
#[verifier::external_body]
fn load_source<'a>(lua: &mlua::Lua, source: &'a str) -> (chunk: mlua::chunk::Chunk<'a>) {
    lua.load(source)
}

/// `mlua::Chunk::exec`: runs a script. Nothing is claimed of the outcome: it
/// depends on the script and on what the script reads.
#[verifier::external_body]
fn execute_chunk(chunk: mlua::chunk::Chunk<'_>) -> (outcome: Result<(), mlua::Error>) {
    chunk.exec()
}

/// `to_string` of an `mlua::Error`: the error in words.
#[verifier::external_body]
fn error_text(error: &mlua::Error) -> (text: String) {
    error.to_string()
}

/// The error of a script, with what went wrong in front of the sandbox's
/// message.
fn script_error(context: &str, error: &mlua::Error) -> (failure: PageError)
    ensures
        failure is Script,
{
    let message = context.to_owned().concat(error_text(error).as_str());
    PageError::Script { message }
}

/// Runs `source` in a new sandbox and returns what it wrote. The sandbox and
/// the buffer are made for this one run; the script sees the table of
/// [`create_htmlua_stdlib`] on that buffer as `htmlua`.
pub fn run_script(source: &str) -> (result: Result<String, PageError>)
    ensures
        result is Err ==> result->Err_0 is Script,
{
    let lua = new_sandbox();
    let stdout: Rc<RefCell<String>> = Rc::new(new_buffer(String::new()));
    let table = match create_htmlua_stdlib(&lua, &stdout) {
        Ok(table) => table,
        Err(error) => {
            return Err(script_error("Failed to create Lua stdlib: ", &error));
        },
    };
    match set_entry(&globals(&lua), "htmlua", table) {
        Ok(()) => {},
        Err(error) => {
            return Err(script_error("Failed to set global: ", &error));
        },
    }
    match execute_chunk(load_source(&lua, source)) {
        Ok(()) => Ok(read_buffer(&*stdout)),
        Err(error) => Err(script_error("Failed to execute Lua: ", &error)),
    }
}

/// The script of each of `regions`: the text at its start.
pub open spec fn scripts_of(regions: Seq<Tree>) -> Seq<Seq<char>> {
    Seq::new(regions.len(), |i: int| regions[i].leading_text())
}

/// One text node for each of `outputs`.
pub open spec fn text_plan(outputs: Seq<Seq<char>>) -> Seq<Seq<Tree>> {
    Seq::new(
        outputs.len(),
        |i: int| seq![Tree { data: DataModel::Text(outputs[i]), children: Seq::empty() }],
    )
}

/// `tree` with the text `outputs[i]` in the place of its `lua` element number
/// `i`. A `lua` element inside another goes with the outer one, and one
/// without an output stays as it is.
pub open spec fn script_pass(tree: Tree, outputs: Seq<Seq<char>>) -> Tree {
    replaced(tree, "lua"@, text_plan(outputs))
}

/// The scripts of `document`: the text at the start of each of its `lua`
/// elements, in document order. An element that does not start with text holds
/// the empty script.
pub fn script_sources(document: &Node) -> (sources: Vec<String>)
    ensures
        strings_view(sources@) == scripts_of(elements(document@.children, "lua"@)),
{
    let regions = select_all(&document.children, "lua");
    let mut sources: Vec<String> = Vec::new();
    let mut i: usize = 0;
    while i < regions.len()
        invariant
            i <= regions.len(),
            sources.len() == i,
            forall|j: int| 0 <= j < i ==> sources[j]@ == regions[j]@.leading_text(),
        decreases regions.len() - i,
    {
        sources.push(regions[i].leading_text().to_owned());
        i += 1;
    }
    assert(strings_view(sources@) =~= scripts_of(borrowed_view(regions@)));
    sources
}

/// `document` with the text `outputs[i]` in the place of its `lua` element
/// number `i`. Where each such element has an output, none is left.
pub fn splice_script_outputs(document: &Node, outputs: &Vec<String>) -> (spliced: Node)
    ensures
        spliced@ == script_pass(document@, strings_view(outputs@)),
        outputs.len() >= elements(document@.children, "lua"@).len() ==> elements(
            spliced@.children,
            "lua"@,
        ).len() == 0,
{
    let mut plan: Vec<Vec<Node>> = Vec::new();
    let mut i: usize = 0;
    while i < outputs.len()
        invariant
            i <= outputs.len(),
            plan.len() == i,
            forall|j: int|
                0 <= j < i ==> forest_view(#[trigger] plan[j]@) == text_plan(
                    strings_view(outputs@),
                )[j],
        decreases outputs.len() - i,
    {
        let mut entry: Vec<Node> = Vec::new();
        entry.push(Node::text(outputs[i].clone()));
        assert(forest_view(entry@) =~= text_plan(strings_view(outputs@))[i as int]);
        plan.push(entry);
        i += 1;
    }
    assert(plan_view(plan@) =~= text_plan(strings_view(outputs@)));
    proof {
        lemma_text_plan_is_clean(strings_view(outputs@), "lua"@);
    }
    replace_elements(document, "lua", plan)
}

/// A plan of text nodes holds no element.
pub proof fn lemma_text_plan_is_clean(outputs: Seq<Seq<char>>, tag: Seq<char>)
    ensures
        forall|i: int|
            0 <= i < outputs.len() ==> elements(#[trigger] text_plan(outputs)[i], tag).len()
                == 0,
{
    assert forall|i: int| 0 <= i < outputs.len() implies elements(
        #[trigger] text_plan(outputs)[i],
        tag,
    ).len() == 0 by {
        let node = Tree { data: DataModel::Text(outputs[i]), children: Seq::empty() };
        lemma_elements_single(node, tag);
    }
}

/// Runs the scripts of `document` in document order, each in a sandbox of its
/// own, and puts what each wrote in the place of its `lua` element. The first
/// script that fails ends the pass with its error; the elements of the scripts
/// that ran before it are replaced, the others stay.
pub fn run_scripts(document: &mut Node) -> (result: Result<(), PageError>)
    ensures
        match result {
            Ok(()) => {
                &&& elements(final(document)@.children, "lua"@).len() == 0
                &&& exists|outputs: Seq<Seq<char>>|
                    outputs.len() == elements(old(document)@.children, "lua"@).len()
                        && final(document)@ == #[trigger] script_pass(old(document)@, outputs)
            },
            Err(error) => {
                &&& error is Script
                &&& exists|outputs: Seq<Seq<char>>|
                    outputs.len() < elements(old(document)@.children, "lua"@).len()
                        && final(document)@ == #[trigger] script_pass(old(document)@, outputs)
            },
        },
        elements(old(document)@.children, "lua"@).len() == 0 ==> result is Ok && final(document)@
            == old(document)@,
{
    let sources = script_sources(document);
    assert(strings_view(sources@).len() == sources.len());
    let mut outputs: Vec<String> = Vec::new();
    let mut failure: Option<PageError> = None;
    let mut i: usize = 0;
    while i < sources.len() && failure.is_none()
        invariant
            i <= sources.len(),
            sources.len() == elements(document@.children, "lua"@).len(),
            failure is None ==> outputs.len() == i,
            failure is Some ==> outputs.len() < sources.len() && failure->0 is Script,
        decreases sources.len() - i,
    {
        match run_script(sources[i].as_str()) {
            Ok(output) => outputs.push(output),
            Err(error) => {
                failure = Some(error);
            },
        }
        i += 1;
    }
    let executed = splice_script_outputs(document, &outputs);
    proof {
        assert(strings_view(outputs@).len() == outputs.len());
        if elements(document@.children, "lua"@).len() == 0 {
            let plan = padded(
                text_plan(strings_view(outputs@)),
                elements(document@.children, "lua"@),
            );
            lemma_replace_nothing(document@.children, "lua"@, plan, 0);
        }
    }
    *document = executed;
    match failure {
        None => Ok(()),
        Some(error) => Err(error),
    }
}

/// Runs the scripts of `document` as [`run_scripts`] does, and hands the
/// document back where every script ran.
pub fn execute_lua(document: Node) -> (result: Result<Node, PageError>)
    ensures
        match result {
            Ok(executed) => {
                &&& elements(executed@.children, "lua"@).len() == 0
                &&& exists|outputs: Seq<Seq<char>>|
                    outputs.len() == elements(document@.children, "lua"@).len() && executed@
                        == #[trigger] script_pass(document@, outputs)
            },
            Err(error) => error is Script && elements(document@.children, "lua"@).len() > 0,
        },
        elements(document@.children, "lua"@).len() == 0 ==> result is Ok && result->Ok_0@
            == document@,
{
    let mut document = document;
    match run_scripts(&mut document) {
        Ok(()) => Ok(document),
        Err(error) => Err(error),
    }
}

} // verus!
