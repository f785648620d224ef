//! The text of the functions that bind the modules of a system interface to a linker.
//!
//! The generated function wraps each function of the module: the wrapper opens a view of the
//! caller's memory, calls the implementation, and brings the shadow along with what was written.
use crate::text::{put_number, with_number};
use vstd::prelude::*;
use vstd::string::{StrSliceExecFns, StringExecFns};

verus! {

/// The types of a core signature.
#[derive(Clone, Copy, Debug, PartialEq, Eq, Structural)]
pub enum WasmType {
    I32,
    I64,
    F32,
    F64,
}

/// How the implementation of a function runs.
pub enum Asyncness {
    /// It is awaited, and so is the host function.
    Async,
    /// It is awaited by a host function that blocks, with the function of this path.
    Blocking { block_with: String },
    /// It is called directly.
    Sync,
}

/// A function of the interface.
pub struct InterfaceFunc {
    /// The name under which the guest imports it.
    pub name: String,
    /// The name of its implementation.
    pub ident: String,
    pub params: Vec<WasmType>,
    pub results: Vec<WasmType>,
    pub asyncness: Asyncness,
    /// The traits that its context must have.
    pub bounds: Vec<String>,
}

/// A module of the interface.
pub struct InterfaceModule {
    /// The name under which the guest imports it.
    pub name: String,
    /// The name of the Rust module that holds its implementation.
    pub ident: String,
    pub funcs: Vec<InterfaceFunc>,
}

/// What is generated.
#[derive(Clone, Copy, Debug, PartialEq, Eq, Structural)]
pub struct CodegenSettings {
    /// Some function of the module is asynchronous, so that the context must be sendable.
    pub contains_async: bool,
    /// The context is handed out for writing.
    pub mutable: bool,
}

/// The wrapper up to the call of the implementation. Where the memory has a shadow, the view
/// compares what is read with it and records what is written.
pub const BODY_HEAD: &'static str = r#"
    let export = caller.get_export("memory");
    let fuel = wiggle::wasmtime_crate::AsContextMut::as_context_mut(&mut caller).hostcall_fuel();
    let an_memory = match &export {
        Some(wiggle::wasmtime_crate::Extern::Memory(m)) => Some(*m),
        _ => None,
    };
    let (mut mem, ctx) = match &export {
        Some(wiggle::wasmtime_crate::Extern::Memory(m)) => {
            let (raw, shadow, a, ctx) = m.an_untracked_data_shadow_and_store_mut(&mut caller);
            let ctx = get_cx(ctx);
            ctx.set_hostcall_fuel(fuel);
            let mem = match shadow {
                Some(shadow) => wiggle::GuestMemory::unshared_an_verified(raw, shadow, a),
                None => wiggle::GuestMemory::unshared(raw),
            };
            (mem, ctx)
        }
        Some(wiggle::wasmtime_crate::Extern::SharedMemory(m)) => {
            let ctx = get_cx(caller.data_mut());
            ctx.set_hostcall_fuel(fuel);
            (wiggle::GuestMemory::shared(m.data()), ctx)
        }
        _ => wiggle::error::bail!("missing required memory export"),
    };
    let result = "#;

/// The wrapper after the call of the implementation, up to the type of its result. The ranges
/// that the host wrote are brought along together, also after an error: writes may have come
/// before it.
pub const BODY_TAIL: &'static str = r#";
    let an_dirty: Vec<_> = mem
        .an_take_dirty()
        .into_iter()
        .map(|r| r.start as usize..r.end as usize)
        .collect();
    if let Some(m) = an_memory {
        if !wiggle::wasmtime_crate::_internal::an_resync_ranges(&m, &mut caller, &an_dirty) {
            wiggle::error::bail!("AN-encoding memory mismatch at hostcall write resync");
        }
    }
    Ok(<"#;

/// The generated function up to its name.
pub const LINK_HEAD: &'static str =
    "/// Adds all instance items to the specified `Linker`.\npub fn ";

/// The name of a type.
pub open spec fn rust_name(ty: WasmType) -> Seq<char> {
    match ty {
        WasmType::I32 => "i32"@,
        WasmType::I64 => "i64"@,
        WasmType::F32 => "f32"@,
        WasmType::F64 => "f64"@,
    }
}

/// The name of a type.
fn rust_name_of(ty: WasmType) -> (r: &'static str)
    ensures
        r@ == rust_name(ty),
{
    match ty {
        WasmType::I32 => "i32",
        WasmType::I64 => "i64",
        WasmType::F32 => "f32",
        WasmType::F64 => "f64",
    }
}

/// A text with the first `n` characters of another behind it, as they stand in a string literal.
pub open spec fn with_escaped(out: Seq<char>, s: Seq<char>, n: nat) -> Seq<char>
    decreases n,
{
    if n == 0 {
        out
    } else {
        let before = with_escaped(out, s, (n - 1) as nat);
        let c = s[n - 1];
        if c == '"' || c == '\\' {
            before + "\\"@ + seq![c]
        } else {
            before + seq![c]
        }
    }
}

/// A text with a string literal behind it.
pub open spec fn with_literal(out: Seq<char>, s: Seq<char>) -> Seq<char> {
    with_escaped(out + "\""@, s, s.len()) + "\""@
}

/// Appends a string literal.
fn put_literal(out: &mut String, s: &str)
    ensures
        final(out)@ == with_literal(old(out)@, s@),
{
    out.append("\"");
    let ghost start = out@;
    let total: usize = s.unicode_len();
    let mut i: usize = 0;
    while i < total
        invariant
            i <= total,
            total == s@.len(),
            out@ == with_escaped(start, s@, i as nat),
        decreases total - i,
    {
        let c: char = s.get_char(i);
        if c == '"' || c == '\\' {
            out.append("\\");
        }
        out.append(s.substring_char(i, i + 1));
        assert(s@.subrange(i as int, i + 1) =~= seq![s@[i as int]]);
        i = i + 1;
    }
    out.append("\"");
}

/// A text with the names of the first `n` arguments behind it, each after a comma.
pub open spec fn with_args(out: Seq<char>, n: nat) -> Seq<char>
    decreases n,
{
    if n == 0 {
        out
    } else {
        with_number(with_args(out, (n - 1) as nat) + ", arg"@, (n - 1) as nat)
    }
}

/// A text with the declarations of the first `n` arguments behind it, each after a comma.
pub open spec fn with_decls(out: Seq<char>, params: Seq<WasmType>, n: nat) -> Seq<char>
    decreases n,
{
    if n == 0 {
        out
    } else {
        with_number(with_decls(out, params, (n - 1) as nat) + ", arg"@, (n - 1) as nat) + ": "@
            + rust_name(params[n - 1])
    }
}

/// A text with the first `n` arguments behind it, as the members of a tuple pattern.
pub open spec fn with_arg_tuple(out: Seq<char>, n: nat) -> Seq<char>
    decreases n,
{
    if n == 0 {
        out
    } else {
        with_number(with_arg_tuple(out, (n - 1) as nat) + "arg"@, (n - 1) as nat) + ","@
    }
}

/// A text with the types of the first `n` arguments behind it, as the members of a tuple type.
pub open spec fn with_type_tuple(out: Seq<char>, params: Seq<WasmType>, n: nat) -> Seq<char>
    decreases n,
{
    if n == 0 {
        out
    } else {
        with_type_tuple(out, params, (n - 1) as nat) + rust_name(params[n - 1]) + ","@
    }
}

/// Appends the names of arguments, each after a comma.
fn put_args(out: &mut String, n: usize)
    ensures
        final(out)@ == with_args(old(out)@, n as nat),
{
    let ghost start = out@;
    let mut i: usize = 0;
    while i < n
        invariant
            i <= n,
            out@ == with_args(start, i as nat),
        decreases n - i,
    {
        out.append(", arg");
        put_number(out, i as u64);
        i = i + 1;
    }
}

/// Appends the declarations of arguments, each after a comma.
fn put_decls(out: &mut String, params: &Vec<WasmType>)
    ensures
        final(out)@ == with_decls(old(out)@, params@, params@.len()),
{
    let ghost start = out@;
    let mut i: usize = 0;
    while i < params.len()
        invariant
            i <= params@.len(),
            out@ == with_decls(start, params@, i as nat),
        decreases params@.len() - i,
    {
        out.append(", arg");
        put_number(out, i as u64);
        out.append(": ");
        out.append(rust_name_of(params[i]));
        i = i + 1;
    }
}

/// Appends the names of arguments, as the members of a tuple pattern.
fn put_arg_tuple(out: &mut String, n: usize)
    ensures
        final(out)@ == with_arg_tuple(old(out)@, n as nat),
{
    let ghost start = out@;
    let mut i: usize = 0;
    while i < n
        invariant
            i <= n,
            out@ == with_arg_tuple(start, i as nat),
        decreases n - i,
    {
        out.append("arg");
        put_number(out, i as u64);
        out.append(",");
        i = i + 1;
    }
}

/// Appends the types of arguments, as the members of a tuple type.
fn put_type_tuple(out: &mut String, params: &Vec<WasmType>)
    ensures
        final(out)@ == with_type_tuple(old(out)@, params@, params@.len()),
{
    let ghost start = out@;
    let mut i: usize = 0;
    while i < params.len()
        invariant
            i <= params@.len(),
            out@ == with_type_tuple(start, params@, i as nat),
        decreases params@.len() - i,
    {
        out.append(rust_name_of(params[i]));
        out.append(",");
        i = i + 1;
    }
}

/// The type of a function's result; the unit type where there is none.
pub open spec fn ret_ty(results: Seq<WasmType>) -> Seq<char> {
    if results.len() == 0 {
        "()"@
    } else {
        rust_name(results[0])
    }
}

/// The type of a function's result; the unit type where there is none.
fn ret_ty_of(results: &Vec<WasmType>) -> (r: &'static str)
    ensures
        r@ == ret_ty(results@),
{
    if results.len() == 0 {
        "()"
    } else {
        rust_name_of(results[0])
    }
}

/// A text with the path of an implementation behind it: below the target, where there is one.
pub open spec fn with_impl(
    out: Seq<char>,
    target: Option<Seq<char>>,
    module: Seq<char>,
    ident: Seq<char>,
) -> Seq<char> {
    match target {
        Some(path) => out + path + "::"@ + module + "::"@ + ident,
        None => out + ident,
    }
}

/// Appends the path of an implementation.
fn put_impl(out: &mut String, target: Option<&str>, module: &str, ident: &str)
    ensures
        final(out)@ == with_impl(old(out)@, viewed(target), module@, ident@),
{
    match target {
        Some(path) => {
            out.append(path);
            out.append("::");
            out.append(module);
            out.append("::");
        },
        None => {},
    }
    out.append(ident);
}

/// The characters of an optional path.
pub open spec fn viewed(path: Option<&str>) -> Option<Seq<char>> {
    match path {
        Some(s) => Some(s@),
        None => None,
    }
}

/// A text with the body of a wrapper behind it.
pub open spec fn with_body(
    out: Seq<char>,
    module: Seq<char>,
    func: InterfaceFunc,
    target: Option<Seq<char>>,
) -> Seq<char> {
    let call = with_args(
        with_impl(out + BODY_HEAD@, target, module, func.ident@) + "(ctx, &mut mem"@,
        func.params@.len(),
    ) + ")"@;
    let awaited = if func.asyncness is Sync {
        call
    } else {
        call + ".await"@
    };
    awaited + BODY_TAIL@ + ret_ty(func.results@) + ">::from(result?))"@
}

/// Appends the body of a wrapper.
fn put_body(out: &mut String, module: &str, func: &InterfaceFunc, target: Option<&str>)
    ensures
        final(out)@ == with_body(old(out)@, module@, *func, viewed(target)),
{
    out.append(BODY_HEAD);
    put_impl(out, target, module, func.ident.as_str());
    out.append("(ctx, &mut mem");
    put_args(out, func.params.len());
    out.append(")");
    match &func.asyncness {
        Asyncness::Sync => {},
        _ => {
            out.append(".await");
        },
    }
    out.append(BODY_TAIL);
    out.append(ret_ty_of(&func.results));
    out.append(">::from(result?))");
}

/// A text with the binding of a function behind it.
pub open spec fn with_func(
    out: Seq<char>,
    module: InterfaceModule,
    func: InterfaceFunc,
    target: Option<Seq<char>>,
) -> Seq<char> {
    let opened = out + if func.asyncness is Async {
        "linker.func_wrap_async("@
    } else {
        "linker.func_wrap("@
    };
    let named = with_literal(with_literal(opened, module.name@) + ", "@, func.name@)
        + ", move |mut caller: wiggle::wasmtime_crate::Caller<'_, T>"@;
    let n = func.params@.len();
    let result = "| -> wiggle::error::Result<"@;
    match func.asyncness {
        Asyncness::Async => with_body(
            with_type_tuple(
                with_arg_tuple(named + ", ("@, n) + "): ("@,
                func.params@,
                n,
            ) + ")| { Box::new(async move {"@,
            module.ident@,
            func,
            target,
        ) + "}) },)?;\n"@,
        Asyncness::Blocking { block_with } => with_body(
            with_decls(named, func.params@, n) + result + ret_ty(func.results@)
                + "> { let result = async {"@,
            module.ident@,
            func,
            target,
        ) + "}; "@ + block_with@ + "(result)? },)?;\n"@,
        Asyncness::Sync => with_body(
            with_decls(named, func.params@, n) + result + ret_ty(func.results@) + "> {"@,
            module.ident@,
            func,
            target,
        ) + "},)?;\n"@,
    }
}

/// Appends the binding of a function, which has at most one result.
pub fn generate_func(
    out: &mut String,
    module: &InterfaceModule,
    func: &InterfaceFunc,
    target_path: Option<&str>,
)
    requires
        func.results@.len() <= 1,
    ensures
        final(out)@ == with_func(old(out)@, *module, *func, viewed(target_path)),
{
    match &func.asyncness {
        Asyncness::Async => {
            out.append("linker.func_wrap_async(");
        },
        _ => {
            out.append("linker.func_wrap(");
        },
    }
    put_literal(out, module.name.as_str());
    out.append(", ");
    put_literal(out, func.name.as_str());
    out.append(", move |mut caller: wiggle::wasmtime_crate::Caller<'_, T>");
    match &func.asyncness {
        Asyncness::Async => {
            out.append(", (");
            put_arg_tuple(out, func.params.len());
            out.append("): (");
            put_type_tuple(out, &func.params);
            out.append(")| { Box::new(async move {");
            put_body(out, module.ident.as_str(), func, target_path);
            out.append("}) },)?;\n");
        },
        Asyncness::Blocking { block_with } => {
            put_decls(out, &func.params);
            out.append("| -> wiggle::error::Result<");
            out.append(ret_ty_of(&func.results));
            out.append("> { let result = async {");
            put_body(out, module.ident.as_str(), func, target_path);
            out.append("}; ");
            out.append(block_with.as_str());
            out.append("(result)? },)?;\n");
        },
        Asyncness::Sync => {
            put_decls(out, &func.params);
            out.append("| -> wiggle::error::Result<");
            out.append(ret_ty_of(&func.results));
            out.append("> {");
            put_body(out, module.ident.as_str(), func, target_path);
            out.append("},)?;\n");
        },
    }
}

/// The characters of some texts.
pub open spec fn texts(v: Seq<String>) -> Seq<Seq<char>> {
    Seq::new(v.len(), |i: int| v[i]@)
}

/// A list with the first `n` of some other items behind it, each unless it is there already.
pub open spec fn with_new(list: Seq<Seq<char>>, more: Seq<Seq<char>>, n: nat) -> Seq<Seq<char>>
    decreases n,
{
    if n == 0 {
        list
    } else {
        let before = with_new(list, more, (n - 1) as nat);
        if before.contains(more[n - 1]) {
            before
        } else {
            before.push(more[n - 1])
        }
    }
}

/// The traits that the first `n` functions ask for, each once, in the order of appearance.
pub open spec fn bounds_of(funcs: Seq<InterfaceFunc>, n: nat) -> Seq<Seq<char>>
    decreases n,
{
    if n == 0 {
        Seq::empty()
    } else {
        let more = texts(funcs[n - 1].bounds@);
        with_new(bounds_of(funcs, (n - 1) as nat), more, more.len())
    }
}

/// Some function among the first `n` asks for a trait.
pub open spec fn asked_for(funcs: Seq<InterfaceFunc>, n: nat, b: Seq<char>) -> bool {
    exists|i: int| 0 <= i < n && texts((#[trigger] funcs[i]).bounds@).contains(b)
}

/// New items keep a list free of duplicates, and all of them are in it afterwards.
proof fn lemma_with_new(list: Seq<Seq<char>>, more: Seq<Seq<char>>, n: nat, b: Seq<char>)
    requires
        list.no_duplicates(),
        n <= more.len(),
    ensures
        with_new(list, more, n).no_duplicates(),
        with_new(list, more, n).contains(b) <==> list.contains(b) || more.take(
            n as int,
        ).contains(b),
    decreases n,
{
    if n > 0 {
        let before = with_new(list, more, (n - 1) as nat);
        let x = more[n - 1];
        lemma_with_new(list, more, (n - 1) as nat, b);
        let part = more.take(n - 1);
        assert(more.take(n as int) =~= part.push(x));
        lemma_push_contains(part, x, b);
        lemma_push_contains(before, x, b);
    }
}

/// What is in a list that an item was added to.
proof fn lemma_push_contains(list: Seq<Seq<char>>, x: Seq<char>, b: Seq<char>)
    ensures
        list.push(x).contains(b) <==> list.contains(b) || b == x,
{
    let pushed = list.push(x);
    if b == x {
        assert(pushed[list.len() as int] == b);
    }
    if list.contains(b) {
        let i = choose|i: int| 0 <= i < list.len() && list[i] == b;
        assert(pushed[i] == b);
    }
    if pushed.contains(b) && b != x {
        let i = choose|i: int| 0 <= i < pushed.len() && pushed[i] == b;
        assert(list[i] == b);
    }
}

/// The bounds of a module are those that its functions ask for, each once.
pub proof fn lemma_bounds(funcs: Seq<InterfaceFunc>, n: nat, b: Seq<char>)
    requires
        n <= funcs.len(),
    ensures
        bounds_of(funcs, n).no_duplicates(),
        bounds_of(funcs, n).contains(b) <==> asked_for(funcs, n, b),
    decreases n,
{
    if n > 0 {
        let more = texts(funcs[n - 1].bounds@);
        lemma_bounds(funcs, (n - 1) as nat, b);
        lemma_with_new(bounds_of(funcs, (n - 1) as nat), more, more.len(), b);
        assert(more.take(more.len() as int) =~= more);
        if asked_for(funcs, n, b) && !more.contains(b) {
            let i = choose|i: int|
                0 <= i < n && texts((#[trigger] funcs[i]).bounds@).contains(b);
            assert(asked_for(funcs, (n - 1) as nat, b));
        }
        if asked_for(funcs, (n - 1) as nat, b) {
            let i = choose|i: int|
                0 <= i < n - 1 && texts((#[trigger] funcs[i]).bounds@).contains(b);
            assert(asked_for(funcs, n, b));
        }
    }
}

/// Whether a text is in a list.
fn is_listed(list: &Vec<String>, b: &String) -> (r: bool)
    ensures
        r == texts(list@).contains(b@),
{
    let mut i: usize = 0;
    while i < list.len()
        invariant
            i <= list@.len(),
            forall|j: int| 0 <= j < i ==> (#[trigger] list@[j])@ != b@,
        decreases list@.len() - i,
    {
        if list[i].eq(b) {
            assert(texts(list@)[i as int] == b@);
            return true;
        }
        i = i + 1;
    }
    proof {
        if texts(list@).contains(b@) {
            let j = choose|j: int| 0 <= j < list@.len() && texts(list@)[j] == b@;
            assert(list@[j]@ == b@);
        }
    }
    false
}

/// Adds those of some texts that are not in a list yet.
fn add_new(list: &mut Vec<String>, more: &Vec<String>)
    ensures
        texts(final(list)@) == with_new(texts(old(list)@), texts(more@), more@.len()),
{
    let ghost start = texts(list@);
    let mut k: usize = 0;
    while k < more.len()
        invariant
            k <= more@.len(),
            texts(list@) == with_new(start, texts(more@), k as nat),
        decreases more@.len() - k,
    {
        let ghost before = texts(list@);
        if !is_listed(list, &more[k]) {
            list.push(more[k].clone());
            assert(texts(list@) =~= before.push(texts(more@)[k as int]));
        }
        k = k + 1;
    }
}

/// A text with the first `n` bounds behind it, joined by plus signs.
pub open spec fn with_bounds(
    out: Seq<char>,
    bounds: Seq<Seq<char>>,
    target: Option<Seq<char>>,
    module: Seq<char>,
    n: nat,
) -> Seq<char>
    decreases n,
{
    if n == 0 {
        out
    } else {
        let before = with_bounds(out, bounds, target, module, (n - 1) as nat);
        with_impl(
            if n == 1 {
                before
            } else {
                before + " + "@
            },
            target,
            module,
            bounds[n - 1],
        )
    }
}

/// Appends bounds, joined by plus signs.
fn put_bounds(out: &mut String, bounds: &Vec<String>, target: Option<&str>, module: &str)
    ensures
        final(out)@ == with_bounds(
            old(out)@,
            texts(bounds@),
            viewed(target),
            module@,
            bounds@.len(),
        ),
{
    let ghost start = out@;
    let mut i: usize = 0;
    while i < bounds.len()
        invariant
            i <= bounds@.len(),
            out@ == with_bounds(start, texts(bounds@), viewed(target), module@, i as nat),
        decreases bounds@.len() - i,
    {
        if i > 0 {
            out.append(" + ");
        }
        put_impl(out, target, module, bounds[i].as_str());
        i = i + 1;
    }
}

/// What the context must have beside the bounds.
pub open spec fn send_bound(settings: CodegenSettings) -> Seq<char> {
    if settings.contains_async {
        " + Send, T: Send"@
    } else {
        ""@
    }
}

/// A text with the bindings of the first `n` functions behind it.
pub open spec fn with_funcs(
    out: Seq<char>,
    module: InterfaceModule,
    target: Option<Seq<char>>,
    n: nat,
) -> Seq<char>
    decreases n,
{
    if n == 0 {
        out
    } else {
        with_func(
            with_funcs(out, module, target, (n - 1) as nat),
            module,
            module.funcs@[n - 1],
            target,
        )
    }
}

/// The text of the function that adds a module to a linker.
pub open spec fn link_text(
    module: InterfaceModule,
    target: Option<Seq<char>>,
    settings: CodegenSettings,
) -> Seq<char> {
    let n = module.funcs@.len();
    let bounds = bounds_of(module.funcs@, n);
    let named = match target {
        Some(_) => LINK_HEAD@ + "add_"@ + module.ident@ + "_to_linker"@,
        None => LINK_HEAD@ + "add_to_linker"@,
    };
    let opened = named
        + "<T, U>(linker: &mut wiggle::wasmtime_crate::Linker<T>, get_cx: impl Fn(&mut T) -> "@
        + if settings.mutable {
        "&mut U"@
    } else {
        "&U"@
    } + " + Send + Sync + Copy + 'static,) -> wiggle::error::Result<()> where T: 'static, U: "@;
    let bounded = with_bounds(opened, bounds, target, module.ident@, bounds.len())
        + send_bound(settings) + send_bound(settings) + "\n{\n"@;
    with_funcs(bounded, module, target, n) + "Ok(())\n}\n"@
}

/// The text of the function that adds a module to a linker. Each function of the module is
/// wrapped, and the context must have the traits that any of them asks for.
pub fn link_module(
    module: &InterfaceModule,
    target_path: Option<&str>,
    settings: CodegenSettings,
) -> (text: String)
    requires
        forall|i: int| 0 <= i < module.funcs@.len() ==> (#[trigger] module.funcs@[i]).results@.len()
            <= 1,
    ensures
        text@ == link_text(*module, viewed(target_path), settings),
{
    let mut bounds: Vec<String> = Vec::new();
    let mut i: usize = 0;
    assert(texts(bounds@) =~= Seq::<Seq<char>>::empty());
    while i < module.funcs.len()
        invariant
            i <= module.funcs@.len(),
            texts(bounds@) == bounds_of(module.funcs@, i as nat),
        decreases module.funcs@.len() - i,
    {
        add_new(&mut bounds, &module.funcs[i].bounds);
        i = i + 1;
    }
    let mut out: String = LINK_HEAD.to_owned();
    match target_path {
        Some(_) => {
            out.append("add_");
            out.append(module.ident.as_str());
            out.append("_to_linker");
        },
        None => {
            out.append("add_to_linker");
        },
    }
    out.append(
        "<T, U>(linker: &mut wiggle::wasmtime_crate::Linker<T>, get_cx: impl Fn(&mut T) -> ",
    );
    out.append(
        if settings.mutable {
            "&mut U"
        } else {
            "&U"
        },
    );
    out.append(
        " + Send + Sync + Copy + 'static,) -> wiggle::error::Result<()> where T: 'static, U: ",
    );
    put_bounds(&mut out, &bounds, target_path, module.ident.as_str());
    let send: &str = if settings.contains_async {
        " + Send, T: Send"
    } else {
        ""
    };
    out.append(send);
    out.append(send);
    out.append("\n{\n");
    let ghost start = out@;
    let mut k: usize = 0;
    while k < module.funcs.len()
        invariant
            forall|j: int|
                0 <= j < module.funcs@.len() ==> (#[trigger] module.funcs@[j]).results@.len() <= 1,
            k <= module.funcs@.len(),
            out@ == with_funcs(start, *module, viewed(target_path), k as nat),
        decreases module.funcs@.len() - k,
    {
        generate_func(&mut out, module, &module.funcs[k], target_path);
        k = k + 1;
    }
    out.append("Ok(())\n}\n");
    out
}

} // verus!
