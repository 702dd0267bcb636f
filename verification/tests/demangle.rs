use inferno::collapse::util::fix_partially_demangled_rust_symbol;

fn ok(sym: &str, expected: &str) -> bool {
    let result = fix_partially_demangled_rust_symbol(sym);
    if result == expected {
        true
    } else {
        println!("\n{}\n!=\n{}\n", result, expected);
        false
    }
}

fn ok_unchanged(sym: &str) -> bool {
    let result = fix_partially_demangled_rust_symbol(sym);
    if result == sym {
        true
    } else {
        println!("{} should have been unchanged, but got {}", sym, result);
        false
    }
}

fn check_demangled_symbols() {
    assert!(ok(
        "std::sys::unix::fs::File::open::hb90e1c1c787080f0",
        "std::sys::unix::fs::File::open"
    ));
    assert!(ok("_$LT$std..fs..ReadDir$u20$as$u20$core..iter..traits..iterator..Iterator$GT$::next::hc14f1750ca79129b", "<std::fs::ReadDir as core::iter::traits::iterator::Iterator>::next"));
    assert!(ok("rg::search_parallel::_$u7b$$u7b$closure$u7d$$u7d$::_$u7b$$u7b$closure$u7d$$u7d$::h6e849b55a66fcd85", "rg::search_parallel::_{{closure}}::_{{closure}}"));
    assert!(ok(
        "_$LT$F$u20$as$u20$alloc..boxed..FnBox$LT$A$GT$$GT$::call_box::h8612a2a83552fc2d",
        "<F as alloc::boxed::FnBox<A>>::call_box"
    ));
    assert!(ok(
        "_$LT$$RF$std..fs..File$u20$as$u20$std..io..Read$GT$::read::h5d84059cf335c8e6",
        "<&std::fs::File as std::io::Read>::read"
    ));
    assert!(ok(
        "_$LT$std..thread..JoinHandle$LT$T$GT$$GT$::join::hca6aa63e512626da",
        "<std::thread::JoinHandle<T>>::join"
    ));
    assert!(ok(
        "std::sync::mpsc::shared::Packet$LT$T$GT$::recv::hfde2d9e28d13fd56",
        "std::sync::mpsc::shared::Packet<T>::recv"
    ));
    assert!(ok("crossbeam_utils::thread::ScopedThreadBuilder::spawn::_$u7b$$u7b$closure$u7d$$u7d$::h8fdc7d4f74c0da05", "crossbeam_utils::thread::ScopedThreadBuilder::spawn::_{{closure}}"));
}

fn check_fully_mangled_symbols() {
    assert!(ok_unchanged("_ZN4testE"));
    assert!(ok_unchanged("_ZN4test1a2bcE"));
    assert!(ok_unchanged("_ZN7inferno10flamegraph5merge6frames17hacfe2d67301633c2E"));
    assert!(ok_unchanged("_ZN3std2rt19lang_start_internal17h540c897fe52ba9c5E"));
    assert!(ok_unchanged("_ZN116_$LT$core..str..pattern..CharSearcher$LT$$u27$a$GT$$u20$as$u20$core..str..pattern..ReverseSearcher$LT$$u27$a$GT$$GT$15next_match_back17h09d544049dd719bbE"));
    assert!(ok_unchanged("_ZN3std5panic12catch_unwind17h0562757d03ff60b3E"));
    assert!(ok_unchanged("_ZN3std9panicking3try17h9c1cbc5599e1efbfE"));
}

fn check_fully_demangled_symbols() {
    assert!(ok_unchanged("std::sys::unix::fs::File::open"));
    assert!(ok_unchanged("<F as alloc::boxed::FnBox<A>>::call_box"));
    assert!(ok_unchanged("<std::fs::ReadDir as core::iter::traits::iterator::Iterator>::next"));
    assert!(ok_unchanged("<rg::search::SearchWorker<W>>::search_impl"));
    assert!(ok_unchanged("<grep_searcher::searcher::glue::ReadByLine<'s, M, R, S>>::run"));
    assert!(ok_unchanged("<alloc::raw_vec::RawVec<T, A>>::reserve_internal"));
}

#[test]
fn common_fix_partially_demangled_rust_symbols() {
    check_demangled_symbols();
}

#[test]
fn common_fix_partially_demangled_rust_symbol_on_fully_mangled_symbols() {
    check_fully_mangled_symbols();
}

#[test]
fn common_fix_partially_demangled_rust_symbol_on_fully_demangled_symbols() {
    check_fully_demangled_symbols();
}

#[test]
fn mod_fix_partially_demangled_rust_symbols() {
    check_demangled_symbols();
}

#[test]
fn mod_fix_partially_demangled_rust_symbol_on_fully_mangled_symbols() {
    check_fully_mangled_symbols();
}

#[test]
fn mod_fix_partially_demangled_rust_symbol_on_fully_demangled_symbols() {
    check_fully_demangled_symbols();
}

#[test]
fn demangle_unknown_escape_keeps_rest() {
    assert_eq!(
        fix_partially_demangled_rust_symbol("a$zz$b..c::h0123456789abcdef"),
        "a$zz$b..c"
    );
}

#[test]
fn demangle_single_dot_kept() {
    assert_eq!(
        fix_partially_demangled_rust_symbol("a.b..c::h0123456789abcdef"),
        "a.b::c"
    );
}
