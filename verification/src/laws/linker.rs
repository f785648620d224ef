//! The generated bindings.
use crate::linker::{
    bounds_of, generate_func, lemma_bounds, link_module, ret_ty, rust_name, texts, viewed,
    with_arg_tuple, with_args, with_body, with_bounds, with_decls, with_escaped, with_func,
    with_funcs, with_impl, with_literal, with_type_tuple, Asyncness, CodegenSettings, InterfaceFunc,
    InterfaceModule, WasmType, BODY_HEAD, LINK_HEAD,
};
use crate::text::{digit, with_number};
use vstd::prelude::*;

verus! {

/// The digits of a number, the highest first.
pub open spec fn numeral(n: nat) -> Seq<char>
    decreases n,
{
    if n < 10 {
        seq![(48 + n) as char]
    } else {
        numeral(n / 10).push((48 + n % 10) as char)
    }
}

/// The number that digits spell.
pub open spec fn spelled(d: Seq<char>) -> int
    decreases d.len(),
{
    if d.len() == 0 {
        0
    } else {
        10 * spelled(d.drop_last()) + (d.last() as int - '0' as int)
    }
}

/// A numeral spells its number in digits alone, without a leading zero.
pub proof fn law_numeral(n: nat)
    ensures
        spelled(numeral(n)) == n,
        numeral(n).len() > 0,
        forall|i: int| 0 <= i < numeral(n).len() ==> '0' <= #[trigger] numeral(n)[i] <= '9',
        n > 0 ==> numeral(n)[0] != '0',
    decreases n,
{
    if n >= 10 {
        law_numeral(n / 10);
        let d = numeral(n / 10);
        assert(numeral(n).drop_last() =~= d);
        assert forall|i: int| 0 <= i < numeral(n).len() implies '0' <= #[trigger] numeral(n)[i]
            <= '9' by {
            if i < d.len() {
                assert(numeral(n)[i] == d[i]);
            }
        }
        assert(numeral(n)[0] == d[0]);
    } else {
        assert(numeral(n).drop_last() =~= Seq::<char>::empty());
        assert(spelled(numeral(n).drop_last()) == 0);
        assert(numeral(n).last() == (48 + n) as char);
    }
}

/// A number behind a text is its numeral.
pub proof fn lemma_with_number(out: Seq<char>, n: nat)
    ensures
        with_number(out, n) == out + numeral(n),
    decreases n,
{
    let d = n % 10;
    reveal_strlit("0");
    reveal_strlit("1");
    reveal_strlit("2");
    reveal_strlit("3");
    reveal_strlit("4");
    reveal_strlit("5");
    reveal_strlit("6");
    reveal_strlit("7");
    reveal_strlit("8");
    reveal_strlit("9");
    assert(digit(d) =~= seq![(48 + d) as char]);
    if n >= 10 {
        lemma_with_number(out, n / 10);
        assert(with_number(out, n) =~= out + numeral(n));
    } else {
        assert(with_number(out, n) =~= out + numeral(n));
    }
}

/// One piece for each of the first `n` numbers, one behind the other.
pub open spec fn joined(n: nat, piece: spec_fn(int) -> Seq<char>) -> Seq<char> {
    Seq::new(n, piece).flatten()
}

/// One more piece.
proof fn lemma_joined(n: nat, piece: spec_fn(int) -> Seq<char>)
    ensures
        joined(0, piece) == Seq::<char>::empty(),
        joined(n + 1, piece) == joined(n, piece) + piece(n as int),
{
    assert(Seq::new(0, piece) =~= Seq::<Seq<char>>::empty());
    assert(Seq::new(n + 1, piece) =~= Seq::new(n, piece).push(piece(n as int)));
    Seq::new(n, piece).lemma_flatten_push(piece(n as int));
}

/// What the Rust type of a core type is called.
pub open spec fn called(ty: WasmType) -> Seq<char> {
    match ty {
        WasmType::I32 => seq!['i', '3', '2'],
        WasmType::I64 => seq!['i', '6', '4'],
        WasmType::F32 => seq!['f', '3', '2'],
        WasmType::F64 => seq!['f', '6', '4'],
    }
}

/// The names of the core types.
proof fn lemma_called(ty: WasmType)
    ensures
        rust_name(ty) == called(ty),
{
    reveal_strlit("i32");
    reveal_strlit("i64");
    reveal_strlit("f32");
    reveal_strlit("f64");
    assert(rust_name(ty) =~= called(ty));
}

/// Distinct core types have distinct names.
pub proof fn law_distinct_names(x: WasmType, y: WasmType)
    ensures
        called(x) == called(y) <==> x == y,
        rust_name(x) == rust_name(y) <==> x == y,
{
    lemma_called(x);
    lemma_called(y);
    if x != y {
        assert(called(x)[0] != called(y)[0] || called(x)[1] != called(y)[1]);
    }
}

/// A character of a string literal: quotes and backslashes stand behind a backslash.
pub open spec fn escaped(c: char) -> Seq<char> {
    if c == '"' || c == '\\' {
        seq!['\\', c]
    } else {
        seq![c]
    }
}

/// A string literal.
pub open spec fn quoted(s: Seq<char>) -> Seq<char> {
    seq!['"'] + joined(s.len(), |i: int| escaped(s[i])) + seq!['"']
}

/// The first characters of a string literal.
proof fn lemma_escaped(out: Seq<char>, s: Seq<char>, n: nat)
    requires
        n <= s.len(),
    ensures
        with_escaped(out, s, n) == out + joined(n, |i: int| escaped(s[i])),
    decreases n,
{
    let piece = |i: int| escaped(s[i]);
    lemma_joined((n - 1) as nat, piece);
    if n > 0 {
        lemma_joined((n - 1) as nat, piece);
        lemma_escaped(out, s, (n - 1) as nat);
        reveal_strlit("\\");
        assert("\\"@ =~= seq!['\\']);
        assert(with_escaped(out, s, n) =~= out + joined(n, piece));
    } else {
        assert(with_escaped(out, s, n) =~= out + joined(n, piece));
    }
}

/// A string literal behind a text.
proof fn lemma_literal(out: Seq<char>, s: Seq<char>)
    ensures
        with_literal(out, s) == out + quoted(s),
{
    reveal_strlit("\"");
    assert("\""@ =~= seq!['"']);
    lemma_escaped(out + "\""@, s, s.len());
    assert(with_literal(out, s) =~= out + quoted(s));
}

/// The arguments of a call, by name.
pub open spec fn arguments(n: nat) -> Seq<char> {
    joined(n, |i: int| ", arg"@ + numeral(i as nat))
}

/// The declaration of the arguments, one for each parameter.
pub open spec fn declarations(params: Seq<WasmType>) -> Seq<char> {
    joined(
        params.len(),
        |i: int| ", arg"@ + numeral(i as nat) + ": "@ + called(params[i]),
    )
}

/// The arguments as the members of a tuple.
pub open spec fn members(n: nat) -> Seq<char> {
    joined(n, |i: int| "arg"@ + numeral(i as nat) + ","@)
}

/// Their types as the members of a tuple type.
pub open spec fn member_types(params: Seq<WasmType>) -> Seq<char> {
    joined(params.len(), |i: int| called(params[i]) + ","@)
}

/// The arguments behind a text.
proof fn lemma_args(out: Seq<char>, n: nat)
    ensures
        with_args(out, n) == out + arguments(n),
    decreases n,
{
    let piece = |i: int| ", arg"@ + numeral(i as nat);
    if n > 0 {
        let k = (n - 1) as nat;
        lemma_joined(k, piece);
        lemma_args(out, k);
        lemma_with_number(with_args(out, k) + ", arg"@, k);
    } else {
        lemma_joined(0, piece);
    }
    assert(with_args(out, n) =~= out + arguments(n));
}

/// The first declarations behind a text.
proof fn lemma_decls(out: Seq<char>, params: Seq<WasmType>, n: nat)
    requires
        n <= params.len(),
    ensures
        with_decls(out, params, n) == out + joined(
            n,
            |i: int| ", arg"@ + numeral(i as nat) + ": "@ + called(params[i]),
        ),
    decreases n,
{
    let piece = |i: int| ", arg"@ + numeral(i as nat) + ": "@ + called(params[i]);
    if n > 0 {
        let k = (n - 1) as nat;
        lemma_joined(k, piece);
        lemma_decls(out, params, k);
        lemma_with_number(with_decls(out, params, k) + ", arg"@, k);
        lemma_called(params[n - 1]);
    } else {
        lemma_joined(0, piece);
    }
    assert(with_decls(out, params, n) =~= out + joined(n, piece));
}

/// The members behind a text.
proof fn lemma_members(out: Seq<char>, n: nat)
    ensures
        with_arg_tuple(out, n) == out + members(n),
    decreases n,
{
    let piece = |i: int| "arg"@ + numeral(i as nat) + ","@;
    if n > 0 {
        let k = (n - 1) as nat;
        lemma_joined(k, piece);
        lemma_members(out, k);
        lemma_with_number(with_arg_tuple(out, k) + "arg"@, k);
    } else {
        lemma_joined(0, piece);
    }
    assert(with_arg_tuple(out, n) =~= out + members(n));
}

/// The first types behind a text.
proof fn lemma_member_types(out: Seq<char>, params: Seq<WasmType>, n: nat)
    requires
        n <= params.len(),
    ensures
        with_type_tuple(out, params, n) == out + joined(n, |i: int| called(params[i]) + ","@),
    decreases n,
{
    let piece = |i: int| called(params[i]) + ","@;
    if n > 0 {
        let k = (n - 1) as nat;
        lemma_joined(k, piece);
        lemma_member_types(out, params, k);
        lemma_called(params[n - 1]);
    } else {
        lemma_joined(0, piece);
    }
    assert(with_type_tuple(out, params, n) =~= out + joined(n, piece));
}

/// The declared result: that of the function, the unit type where there is none.
pub open spec fn declared_result(results: Seq<WasmType>) -> Seq<char> {
    if results.len() == 0 {
        seq!['(', ')']
    } else {
        called(results[0])
    }
}

/// The result of a function.
proof fn lemma_result(results: Seq<WasmType>)
    ensures
        ret_ty(results) == declared_result(results),
{
    reveal_strlit("()");
    if results.len() > 0 {
        lemma_called(results[0]);
    }
    assert(ret_ty(results) =~= declared_result(results));
}

/// The path of an item: below the target and the module, where there is a target.
pub open spec fn item_path(target: Option<&str>, module: Seq<char>, ident: Seq<char>) -> Seq<
    char,
> {
    match target {
        Some(path) => path@ + "::"@ + module + "::"@ + ident,
        None => ident,
    }
}

/// A path behind a text.
proof fn lemma_path(out: Seq<char>, target: Option<&str>, module: Seq<char>, ident: Seq<char>)
    ensures
        with_impl(out, viewed(target), module, ident) == out + item_path(target, module, ident),
{
    assert(with_impl(out, viewed(target), module, ident) =~= out + item_path(
        target,
        module,
        ident,
    ));
}

/// What stands before the call in a wrapper: the memory is looked up and the view opened, which
/// compares and records where there is a shadow, and the fuel is set.
pub open spec fn before_call() -> Seq<char> {
    r#"
    let export = caller.get_export("memory");
    let fuel = wiggle::wasmtime_crate::AsContextMut::as_context_mut(&mut caller).hostcall_fuel();
    let an_memory = match &export {
        Some(wiggle::wasmtime_crate::Extern::Memory(m)) => Some(*m),
        _ => None,
    };
    let (mut mem, ctx) = match &export {
        Some(wiggle::wasmtime_crate::Extern::Memory(m)) => {
            let (raw, shadow, a, ctx) = m.an_untracked_data_shadow_and_store_mut(&mut caller);
            let ctx = get_cx(ctx);
            ctx.set_hostcall_fuel(fuel);
            let mem = match shadow {
                Some(shadow) => wiggle::GuestMemory::unshared_an_verified(raw, shadow, a),
                None => wiggle::GuestMemory::unshared(raw),
            };
            (mem, ctx)
        }
        Some(wiggle::wasmtime_crate::Extern::SharedMemory(m)) => {
            let ctx = get_cx(caller.data_mut());
            ctx.set_hostcall_fuel(fuel);
            (wiggle::GuestMemory::shared(m.data()), ctx)
        }
        _ => wiggle::error::bail!("missing required memory export"),
    };
    let result = "#@
}

/// What stands after it: the ranges that were written are brought along, whatever came back.
pub open spec fn after_call() -> Seq<char> {
    r#";
    let an_dirty: Vec<_> = mem
        .an_take_dirty()
        .into_iter()
        .map(|r| r.start as usize..r.end as usize)
        .collect();
    if let Some(m) = an_memory {
        if !wiggle::wasmtime_crate::_internal::an_resync_ranges(&m, &mut caller, &an_dirty) {
            wiggle::error::bail!("AN-encoding memory mismatch at hostcall write resync");
        }
    }
    Ok(<"#@
}

/// The body of a wrapper: one call of the implementation with the context, the memory and the
/// arguments in order.
pub open spec fn wrapper_body(
    module: InterfaceModule,
    func: InterfaceFunc,
    target: Option<&str>,
) -> Seq<char> {
    before_call() + item_path(target, module.ident@, func.ident@) + "(ctx, &mut mem"@ + arguments(
        func.params@.len(),
    ) + ")"@ + (if func.asyncness is Sync {
        Seq::<char>::empty()
    } else {
        ".await"@
    }) + after_call() + declared_result(func.results@) + ">::from(result?))"@
}

/// The body of a wrapper behind a text.
proof fn lemma_body(
    out: Seq<char>,
    module: InterfaceModule,
    func: InterfaceFunc,
    target: Option<&str>,
)
    ensures
        with_body(out, module.ident@, func, viewed(target)) == out + wrapper_body(
            module,
            func,
            target,
        ),
{
    let head = out + BODY_HEAD@;
    let n = func.params@.len();
    lemma_path(head, target, module.ident@, func.ident@);
    let opened = with_impl(head, viewed(target), module.ident@, func.ident@) + "(ctx, &mut mem"@;
    lemma_args(opened, n);
    lemma_result(func.results@);
    assert(with_body(out, module.ident@, func, viewed(target)) =~= out + wrapper_body(
        module,
        func,
        target,
    ));
}

/// What stands before the parameters in a binding.
pub open spec fn binding_start(module: InterfaceModule, func: InterfaceFunc) -> Seq<char> {
    (if func.asyncness is Async {
        "linker.func_wrap_async("@
    } else {
        "linker.func_wrap("@
    }) + quoted(module.name@) + ", "@ + quoted(func.name@)
        + ", move |mut caller: wiggle::wasmtime_crate::Caller<'_, T>"@
}

/// The binding of a function. The guest finds it under the two names, and its signature is that
/// of the function.
pub open spec fn binding(
    module: InterfaceModule,
    func: InterfaceFunc,
    target: Option<&str>,
) -> Seq<char> {
    let start = binding_start(module, func);
    let body = wrapper_body(module, func, target);
    match func.asyncness {
        Asyncness::Async => start + ", ("@ + members(func.params@.len()) + "): ("@ + member_types(
            func.params@,
        ) + ")| { Box::new(async move {"@ + body + "}) },)?;\n"@,
        Asyncness::Blocking { block_with } => start + declarations(func.params@)
            + "| -> wiggle::error::Result<"@ + declared_result(func.results@)
            + "> { let result = async {"@ + body + "}; "@ + block_with@ + "(result)? },)?;\n"@,
        Asyncness::Sync => start + declarations(func.params@) + "| -> wiggle::error::Result<"@
            + declared_result(func.results@) + "> {"@ + body + "},)?;\n"@,
    }
}

/// What comes behind a text that another stands before.
proof fn lemma_behind(out: Seq<char>, s: Seq<char>, t: Seq<char>)
    ensures
        (out + s) + t == out + (s + t),
{
    assert((out + s) + t =~= out + (s + t));
}

/// The start of a binding behind a text.
proof fn lemma_binding_start(out: Seq<char>, module: InterfaceModule, func: InterfaceFunc)
    ensures
        with_literal(
            with_literal(
                out + if func.asyncness is Async {
                    "linker.func_wrap_async("@
                } else {
                    "linker.func_wrap("@
                },
                module.name@,
            ) + ", "@,
            func.name@,
        ) + ", move |mut caller: wiggle::wasmtime_crate::Caller<'_, T>"@ == out + binding_start(
            module,
            func,
        ),
{
    let open = if func.asyncness is Async {
        "linker.func_wrap_async("@
    } else {
        "linker.func_wrap("@
    };
    let (p, q) = (quoted(module.name@), quoted(func.name@));
    let caller = ", move |mut caller: wiggle::wasmtime_crate::Caller<'_, T>"@;
    lemma_literal(out + open, module.name@);
    lemma_literal((out + open) + p + ", "@, func.name@);
    lemma_behind(out, open, p);
    lemma_behind(out, open + p, ", "@);
    lemma_behind(out, open + p + ", "@, q);
    lemma_behind(out, open + p + ", "@ + q, caller);
}

/// A binding behind a text.
proof fn lemma_binding(
    out: Seq<char>,
    module: InterfaceModule,
    func: InterfaceFunc,
    target: Option<&str>,
)
    ensures
        with_func(out, module, func, viewed(target)) == out + binding(module, func, target),
{
    let start = binding_start(module, func);
    lemma_binding_start(out, module, func);
    let named = out + start;
    let n = func.params@.len();
    let arrow = "| -> wiggle::error::Result<"@;
    let ret = declared_result(func.results@);
    let body = wrapper_body(module, func, target);
    lemma_result(func.results@);
    match func.asyncness {
        Asyncness::Async => {
            lemma_members(named + ", ("@, n);
            let args = with_arg_tuple(named + ", ("@, n) + "): ("@;
            lemma_member_types(args, func.params@, n);
            let head = with_type_tuple(args, func.params@, n) + ")| { Box::new(async move {"@;
            lemma_body(head, module, func, target);
            let (m, t) = (members(n), member_types(func.params@));
            lemma_behind(out, start, ", ("@);
            let s1 = start + ", ("@;
            lemma_behind(out, s1, m);
            let s2 = s1 + m;
            lemma_behind(out, s2, "): ("@);
            let s3 = s2 + "): ("@;
            lemma_behind(out, s3, t);
            let s4 = s3 + t;
            lemma_behind(out, s4, ")| { Box::new(async move {"@);
            let s5 = s4 + ")| { Box::new(async move {"@;
            assert(head == out + s5);
            lemma_behind(out, s5, body);
            lemma_behind(out, s5 + body, "}) },)?;\n"@);
        },
        Asyncness::Blocking { block_with } => {
            lemma_decls(named, func.params@, n);
            let opening = "> { let result = async {"@;
            let head = with_decls(named, func.params@, n) + arrow + ret_ty(func.results@)
                + opening;
            lemma_body(head, module, func, target);
            let d = declarations(func.params@);
            lemma_behind(out, start, d);
            lemma_behind(out, start + d, arrow);
            lemma_behind(out, start + d + arrow, ret);
            lemma_behind(out, start + d + arrow + ret, opening);
            let s = start + d + arrow + ret + opening;
            assert(head == out + s);
            lemma_behind(out, s, body);
            lemma_behind(out, s + body, "}; "@);
            lemma_behind(out, s + body + "}; "@, block_with@);
            lemma_behind(out, s + body + "}; "@ + block_with@, "(result)? },)?;\n"@);
        },
        Asyncness::Sync => {
            lemma_decls(named, func.params@, n);
            let head = with_decls(named, func.params@, n) + arrow + ret_ty(func.results@) + "> {"@;
            lemma_body(head, module, func, target);
            let d = declarations(func.params@);
            lemma_behind(out, start, d);
            lemma_behind(out, start + d, arrow);
            lemma_behind(out, start + d + arrow, ret);
            lemma_behind(out, start + d + arrow + ret, "> {"@);
            let s = start + d + arrow + ret + "> {"@;
            assert(head == out + s);
            lemma_behind(out, s, body);
            lemma_behind(out, s + body, "},)?;\n"@);
        },
    }
}

/// A binding is written behind what is there, and does not depend on it.
pub proof fn law_generate_func(
    out: &mut String,
    module: InterfaceModule,
    func: InterfaceFunc,
    target: Option<&str>,
)
    requires
        call_ensures(generate_func, (out, &module, &func, target), ()),
    ensures
        final(out)@ == old(out)@ + binding(module, func, target),
{
    lemma_binding(old(out)@, module, func, target);
}

/// The declarations of two lists of parameters of one length are the same only where the lists
/// are: the declared signature is that of the function.
pub proof fn law_declarations(params: Seq<WasmType>, others: Seq<WasmType>)
    requires
        params.len() == others.len(),
        declarations(params) == declarations(others),
    ensures
        params == others,
    decreases params.len(),
{
    let f = |i: int| ", arg"@ + numeral(i as nat) + ": "@ + called(params[i]);
    let g = |i: int| ", arg"@ + numeral(i as nat) + ": "@ + called(others[i]);
    if params.len() > 0 {
        let n = (params.len() - 1) as nat;
        lemma_joined(n, f);
        lemma_joined(n, g);
        let (p, q) = (params.drop_last(), others.drop_last());
        let before = |i: int| ", arg"@ + numeral(i as nat) + ": "@ + called(p[i]);
        let other = |i: int| ", arg"@ + numeral(i as nat) + ": "@ + called(q[i]);
        assert(Seq::new(n, before) =~= Seq::new(n, f));
        assert(Seq::new(n, other) =~= Seq::new(n, g));
        let (x, y) = (params.last(), others.last());
        let (u, v) = (declarations(params), declarations(others));
        let lead = ", arg"@ + numeral(n) + ": "@;
        assert(u == declarations(p) + (lead + called(x)));
        assert(v == declarations(q) + (lead + called(y)));
        let e = u.len() as int;
        assert(u.subrange(e - 3, e) =~= called(x));
        assert(v.subrange(e - 3, e) =~= called(y));
        law_distinct_names(x, y);
        assert(declarations(p) =~= u.subrange(0, e - 3 - lead.len()));
        assert(declarations(q) =~= v.subrange(0, e - 3 - lead.len()));
        law_declarations(p, q);
        assert(params =~= p.push(x));
        assert(others =~= q.push(y));
    } else {
        assert(params =~= others);
    }
}

/// Some bounds, joined by plus signs.
pub open spec fn summed(
    bounds: Seq<Seq<char>>,
    target: Option<&str>,
    module: Seq<char>,
    n: nat,
) -> Seq<char> {
    joined(
        n,
        |i: int|
            (if i == 0 {
                Seq::<char>::empty()
            } else {
                " + "@
            }) + item_path(target, module, bounds[i]),
    )
}

/// The first bounds behind a text.
proof fn lemma_summed(
    out: Seq<char>,
    bounds: Seq<Seq<char>>,
    target: Option<&str>,
    module: Seq<char>,
    n: nat,
)
    ensures
        with_bounds(out, bounds, viewed(target), module, n) == out + summed(
            bounds,
            target,
            module,
            n,
        ),
    decreases n,
{
    let piece = |i: int|
        (if i == 0 {
            Seq::<char>::empty()
        } else {
            " + "@
        }) + item_path(target, module, bounds[i]);
    if n > 0 {
        let k = (n - 1) as nat;
        lemma_joined(k, piece);
        lemma_summed(out, bounds, target, module, k);
        let before = with_bounds(out, bounds, viewed(target), module, k);
        lemma_path(
            if n == 1 {
                before
            } else {
                before + " + "@
            },
            target,
            module,
            bounds[n - 1],
        );
    } else {
        lemma_joined(0, piece);
    }
    assert(with_bounds(out, bounds, viewed(target), module, n) =~= out + summed(
        bounds,
        target,
        module,
        n,
    ));
}

/// The first bindings behind a text.
proof fn lemma_bindings(
    out: Seq<char>,
    module: InterfaceModule,
    target: Option<&str>,
    n: nat,
)
    ensures
        with_funcs(out, module, viewed(target), n) == out + joined(
            n,
            |i: int| binding(module, module.funcs@[i], target),
        ),
    decreases n,
{
    let piece = |i: int| binding(module, module.funcs@[i], target);
    if n > 0 {
        let k = (n - 1) as nat;
        lemma_joined(k, piece);
        lemma_bindings(out, module, target, k);
        lemma_binding(
            with_funcs(out, module, viewed(target), k),
            module,
            module.funcs@[n - 1],
            target,
        );
    } else {
        lemma_joined(0, piece);
    }
    assert(with_funcs(out, module, viewed(target), n) =~= out + joined(n, piece));
}

/// Some function of a module asks for a trait.
pub open spec fn wants(module: InterfaceModule, b: Seq<char>) -> bool {
    exists|i: int, j: int|
        {
            &&& 0 <= i < module.funcs@.len()
            &&& 0 <= j < module.funcs@[i].bounds@.len()
            &&& (#[trigger] module.funcs@[i].bounds@[j])@ == b
        }
}

/// What stands before the bounds: the function is named after the module where there is a
/// target, and the context is handed out for writing where it is mutable.
pub open spec fn link_start(
    module: InterfaceModule,
    target: Option<&str>,
    settings: CodegenSettings,
) -> Seq<char> {
    "/// Adds all instance items to the specified `Linker`.\npub fn "@ + (if target is Some {
        "add_"@ + module.ident@ + "_to_linker"@
    } else {
        "add_to_linker"@
    }) + "<T, U>(linker: &mut wiggle::wasmtime_crate::Linker<T>, get_cx: impl Fn(&mut T) -> "@ + (
    if settings.mutable {
        "&mut U"@
    } else {
        "&U"@
    }) + " + Send + Sync + Copy + 'static,) -> wiggle::error::Result<()> where T: 'static, U: "@
}

/// What the context must have beside the bounds.
pub open spec fn sendable(settings: CodegenSettings) -> Seq<char> {
    if settings.contains_async {
        " + Send, T: Send"@ + " + Send, T: Send"@
    } else {
        Seq::empty()
    }
}

/// The text for a module binds each of its functions once, in order, and asks of the context
/// each trait that some function asks for once, and no other.
pub proof fn law_link_module(
    module: InterfaceModule,
    target: Option<&str>,
    settings: CodegenSettings,
    text: String,
)
    requires
        call_ensures(link_module, (&module, target, settings), text),
    ensures
        exists|bounds: Seq<Seq<char>>|
            {
                &&& bounds.no_duplicates()
                &&& forall|b: Seq<char>| bounds.contains(b) <==> wants(module, b)
                &&& text@ == link_start(module, target, settings) + #[trigger] summed(
                    bounds,
                    target,
                    module.ident@,
                    bounds.len(),
                ) + sendable(settings) + "\n{\n"@ + joined(
                    module.funcs@.len(),
                    |i: int| binding(module, module.funcs@[i], target),
                ) + "Ok(())\n}\n"@
            },
{
    let n = module.funcs@.len();
    let bounds = bounds_of(module.funcs@, n);
    lemma_bounds(module.funcs@, n, Seq::empty());
    assert forall|b: Seq<char>| bounds.contains(b) <==> wants(module, b) by {
        lemma_bounds(module.funcs@, n, b);
        if bounds.contains(b) {
            let i = choose|i: int|
                0 <= i < n && texts((#[trigger] module.funcs@[i]).bounds@).contains(b);
            let list = texts(module.funcs@[i].bounds@);
            let j = choose|j: int| 0 <= j < list.len() && list[j] == b;
            assert(module.funcs@[i].bounds@[j]@ == b);
        }
        if wants(module, b) {
            let (i, j) = choose|i: int, j: int|
                {
                    &&& 0 <= i < module.funcs@.len()
                    &&& 0 <= j < module.funcs@[i].bounds@.len()
                    &&& (#[trigger] module.funcs@[i].bounds@[j])@ == b
                };
            assert(texts(module.funcs@[i].bounds@)[j] == b);
            assert(texts(module.funcs@[i].bounds@).contains(b));
        }
    }
    let start = link_start(module, target, settings);
    let named = match target {
        Some(_) => LINK_HEAD@ + "add_"@ + module.ident@ + "_to_linker"@,
        None => LINK_HEAD@ + "add_to_linker"@,
    };
    let opened = named
        + "<T, U>(linker: &mut wiggle::wasmtime_crate::Linker<T>, get_cx: impl Fn(&mut T) -> "@
        + if settings.mutable {
        "&mut U"@
    } else {
        "&U"@
    } + " + Send + Sync + Copy + 'static,) -> wiggle::error::Result<()> where T: 'static, U: "@;
    assert(opened =~= start);
    reveal_strlit("");
    lemma_summed(opened, bounds, target, module.ident@, bounds.len());
    let sum = summed(bounds, target, module.ident@, bounds.len());
    let send = crate::linker::send_bound(settings);
    let bounded = with_bounds(opened, bounds, viewed(target), module.ident@, bounds.len()) + send
        + send + "\n{\n"@;
    assert(bounded =~= start + sum + sendable(settings) + "\n{\n"@);
    lemma_bindings(bounded, module, target, n);
    let all = joined(n, |i: int| binding(module, module.funcs@[i], target));
    assert(text@ =~= start + sum + sendable(settings) + "\n{\n"@ + all + "Ok(())\n}\n"@);
}

} // verus!
