use rustc_utils::target::{get_target_strs, Os};

const COMMON: &str = "e-p:64:64:64-i1:8:8-i8:8:8-i16:16:16-i32:32:32-i64:64:64-\
f32:32:32-f64:64:64-v64:64:64-v128:128:128-a0:0:64-s0:64:64-f80:128:128-n8:16:32:64";

#[test]
fn data_layouts_by_os() {
    let mac = get_target_strs("x86_64-apple-darwin".to_string(), Os::OsMacos, "__DATA,__note.rustc");
    assert_eq!(mac.data_layout, COMMON);
    assert_eq!(mac.meta_sect_name, "__DATA,__note.rustc");
    assert_eq!(mac.target_triple, "x86_64-apple-darwin");
    for os in [Os::OsWin32, Os::OsLinux, Os::OsAndroid, Os::OsFreebsd] {
        let t = get_target_strs("x86_64-unknown-linux-gnu".to_string(), os, ".note.rustc");
        assert_eq!(t.data_layout, format!("{COMMON}-S128"));
        assert_eq!(t.module_asm, "");
        assert_eq!(t.cc_args, vec!["-m64".to_string()]);
    }
}
