//! The generated bindings, as text and as tokens.
use an_encoding::linker::{
    generate_func, link_module, Asyncness, CodegenSettings, InterfaceFunc, InterfaceModule,
    WasmType,
};
use proc_macro2::TokenStream;
use syn::{FnArg, GenericParam, ItemFn, Pat, Stmt, WherePredicate};

fn func(name: &str, params: Vec<WasmType>, asyncness: Asyncness, bounds: &[&str]) -> InterfaceFunc {
    InterfaceFunc {
        name: name.to_string(),
        ident: name.replace('-', "_"),
        params,
        results: vec![WasmType::I32],
        asyncness,
        bounds: bounds.iter().map(|b| b.to_string()).collect(),
    }
}

fn module(funcs: Vec<InterfaceFunc>) -> InterfaceModule {
    InterfaceModule {
        name: "wasi_snapshot".to_string(),
        ident: "wasi_snapshot_mod".to_string(),
        funcs,
    }
}

const PLAIN: CodegenSettings = CodegenSettings { contains_async: false, mutable: false };

fn parsed(text: &str) -> ItemFn {
    let tokens: TokenStream = text.parse().expect("the text is made of tokens");
    syn::parse2(tokens).expect("the tokens are a function")
}

fn bounds(f: &ItemFn, index: usize) -> Vec<String> {
    match f.sig.generics.where_clause.as_ref().unwrap().predicates.iter().nth(index).unwrap() {
        WherePredicate::Type(t) => t
            .bounds
            .iter()
            .map(|b| quote::ToTokens::to_token_stream(b).to_string().replace(' ', ""))
            .collect(),
        _ => panic!("not a bound on a type"),
    }
}

#[test]
fn a_module_becomes_a_function() {
    let m = module(vec![
        func("fd-read", vec![WasmType::I32, WasmType::I64], Asyncness::Sync, &["A", "B"]),
        func("fd-write", vec![], Asyncness::Sync, &["B", "C", "A"]),
    ]);
    let f = parsed(&link_module(&m, None, PLAIN));
    assert_eq!(f.sig.ident.to_string(), "add_to_linker");
    let generics: Vec<String> = f
        .sig
        .generics
        .params
        .iter()
        .map(|p| match p {
            GenericParam::Type(t) => t.ident.to_string(),
            _ => panic!("not a type parameter"),
        })
        .collect();
    assert_eq!(generics, vec!["T", "U"]);
    let args: Vec<String> = f
        .sig
        .inputs
        .iter()
        .map(|a| match a {
            FnArg::Typed(t) => match &*t.pat {
                Pat::Ident(i) => i.ident.to_string(),
                _ => panic!("not a name"),
            },
            FnArg::Receiver(_) => panic!("a receiver"),
        })
        .collect();
    assert_eq!(args, vec!["linker", "get_cx"]);
    assert_eq!(bounds(&f, 1), vec!["A", "B", "C"]);
    // Two bindings and the result.
    assert_eq!(f.block.stmts.len(), 3);
    assert!(f.block.stmts[..2].iter().all(|s| matches!(s, Stmt::Expr(_, Some(_)))));
    assert_eq!(f.attrs.len(), 1);
}

#[test]
fn names_are_qualified_by_the_target() {
    let m = module(vec![func("poll", vec![], Asyncness::Sync, &["Poll"])]);
    let text = link_module(&m, Some("crate::host"), PLAIN);
    let f = parsed(&text);
    assert_eq!(f.sig.ident.to_string(), "add_wasi_snapshot_mod_to_linker");
    assert_eq!(bounds(&f, 1), vec!["crate::host::wasi_snapshot_mod::Poll"]);
    assert!(text.contains("crate::host::wasi_snapshot_mod::poll(ctx, &mut mem)"));
}

#[test]
fn contexts_of_asynchronous_functions_are_sendable() {
    let m = module(vec![func("poll", vec![WasmType::I32], Asyncness::Async, &["Poll"])]);
    let settings = CodegenSettings { contains_async: true, mutable: true };
    let text = link_module(&m, None, settings);
    assert!(text.contains("U: Poll + Send, T: Send + Send, T: Send"));
    assert!(text.contains("get_cx: impl Fn(&mut T) -> &mut U + Send"));
    let f = parsed(&text);
    assert_eq!(bounds(&f, 1), vec!["Poll", "Send"]);
    assert!(link_module(&m, None, PLAIN).contains("get_cx: impl Fn(&mut T) -> &U + Send"));
}

#[test]
fn functions_are_wrapped_as_they_run() {
    let params = vec![WasmType::I32, WasmType::F64];
    let bound = |asyncness| {
        let m = module(vec![func("fd-read", params.clone(), asyncness, &[])]);
        let mut text = String::new();
        generate_func(&mut text, &m, &m.funcs[0], None);
        parsed(&format!("fn f() {{ {text} }}"));
        text
    };
    let text = bound(Asyncness::Sync);
    assert!(text.starts_with(
        "linker.func_wrap(\"wasi_snapshot\", \"fd-read\", move |mut caller: \
         wiggle::wasmtime_crate::Caller<'_, T>, arg0: i32, arg1: f64| -> \
         wiggle::error::Result<i32> {"
    ));
    assert!(text.contains("let result = fd_read(ctx, &mut mem, arg0, arg1);"));
    assert!(text.contains("Ok(<i32>::from(result?))},)?;"));

    let text = bound(Asyncness::Async);
    assert!(text.contains("linker.func_wrap_async(\"wasi_snapshot\", \"fd-read\","));
    assert!(text.contains(", (arg0,arg1,): (i32,f64,)| { Box::new(async move {"));
    assert!(text.contains("fd_read(ctx, &mut mem, arg0, arg1).await;"));

    let text = bound(Asyncness::Blocking { block_with: "run::block".to_string() });
    assert!(text.contains("| -> wiggle::error::Result<i32> { let result = async {"));
    assert!(text.contains(".await;"));
    assert!(text.ends_with("}; run::block(result)? },)?;\n"));
}

#[test]
fn wrappers_handle_the_shadow() {
    let m = module(vec![func("f", vec![], Asyncness::Sync, &[])]);
    let text = link_module(&m, None, PLAIN);
    let open = text.find("unshared_an_verified(raw, shadow, a)").unwrap();
    let call = text.find("let result = f(ctx, &mut mem);").unwrap();
    let resync = text.find("an_resync_ranges(&m, &mut caller, &an_dirty)").unwrap();
    let result = text.find("Ok(<i32>::from(result?))").unwrap();
    assert!(open < call && call < resync && resync < result);
    assert!(text.contains("AN-encoding memory mismatch at hostcall write resync"));
    assert!(text.contains("missing required memory export"));
}

#[test]
fn functions_without_results_give_the_unit() {
    let mut f = func("exit", vec![WasmType::I32; 12], Asyncness::Sync, &[]);
    f.results = vec![];
    let m = module(vec![f]);
    let text = link_module(&m, None, PLAIN);
    assert!(text.contains("wiggle::error::Result<()> {\n    let export"));
    assert!(text.contains("Ok(<()>::from(result?))"));
    assert!(text.contains("arg9: i32, arg10: i32, arg11: i32|"));
    parsed(&text);
}

#[test]
fn names_are_escaped() {
    let mut m = module(vec![]);
    m.name = "a\"b\\c".to_string();
    let f = func("g", vec![], Asyncness::Sync, &[]);
    let mut text = String::new();
    generate_func(&mut text, &m, &f, None);
    assert!(text.starts_with("linker.func_wrap(\"a\\\"b\\\\c\", \"g\","));
}
