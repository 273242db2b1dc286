//! The target strings of the x86_64 back end: the data layout that LLVM is
//! given for each operating system, and the other strings of the target.

use vstd::prelude::*;

verus! {

/// The operating systems the back end knows.
#[derive(Clone, Copy, Debug, PartialEq, Eq)]
pub enum Os {
    OsWin32,
    OsMacos,
    OsLinux,
    OsAndroid,
    OsFreebsd,
}

/// The strings that describe a target to the code generator.
#[allow(non_camel_case_types)]
pub struct t {
    pub module_asm: String,
    pub meta_sect_name: String,
    pub data_layout: String,
    pub target_triple: String,
    pub cc_args: Vec<String>,
}

/// The data layout shared by every x86_64 target.
pub open spec fn common_layout() -> Seq<char> {
    "e-p:64:64:64-i1:8:8-i8:8:8-i16:16:16-i32:32:32-i64:64:64-"@
        + "f32:32:32-f64:64:64-v64:64:64-v128:128:128-a0:0:64-"@ + "s0:64:64-f80:128:128-n8:16:32:64"@
}

/// The data layout of x86_64 on `os`: the common layout, with a 128-bit
/// natural stack alignment everywhere but on macOS.
pub open spec fn data_layout(os: Os) -> Seq<char> {
    match os {
        Os::OsMacos => common_layout(),
        _ => common_layout() + "-S128"@,
    }
}

/// The target strings of x86_64 on `target_os`. The name of the metadata
/// section, which depends on the operating system alone, is given by the
/// caller.
pub fn get_target_strs(target_triple: String, target_os: Os, meta_sect_name: &str) -> (r: t)
    ensures
        r.module_asm@ == Seq::<char>::empty(),
        r.meta_sect_name@ == meta_sect_name@,
        r.data_layout@ == data_layout(target_os),
        r.target_triple@ == target_triple@,
        r.cc_args@.len() == 1,
        r.cc_args@[0]@ == "-m64"@,
{
    proof {
        reveal_strlit("");
    }
    let common = concat3(
        "e-p:64:64:64-i1:8:8-i8:8:8-i16:16:16-i32:32:32-i64:64:64-",
        "f32:32:32-f64:64:64-v64:64:64-v128:128:128-a0:0:64-",
        "s0:64:64-f80:128:128-n8:16:32:64",
    );
    let data_layout = match target_os {
        Os::OsMacos => common,
        _ => concat3(common.as_str(), "-S128", ""),
    };
    let mut cc_args: Vec<String> = Vec::new();
    cc_args.push(concat3("-m64", "", ""));
    t {
        module_asm: String::new(),
        meta_sect_name: meta_sect_name.to_owned(),
        data_layout,
        target_triple,
        cc_args,
    }
}

/// Three strings one after the other.
fn concat3(a: &str, b: &str, c: &str) -> (r: String)
    ensures
        r@ == a@ + b@ + c@,
{
    let mut out: Vec<char> = crate::strings::chars_of(a);
    let bs = crate::strings::chars_of(b);
    let cs = crate::strings::chars_of(c);
    let mut i: usize = 0;
    while i < bs.len()
        invariant
            i <= bs@.len(),
            out@ == a@ + bs@.subrange(0, i as int),
        decreases bs@.len() - i,
    {
        out.push(bs[i]);
        i = i + 1;
        assert(out@ =~= a@ + bs@.subrange(0, i as int));
    }
    assert(bs@.subrange(0, bs@.len() as int) =~= b@);
    let mut j: usize = 0;
    while j < cs.len()
        invariant
            j <= cs@.len(),
            out@ == a@ + b@ + cs@.subrange(0, j as int),
        decreases cs@.len() - j,
    {
        out.push(cs[j]);
        j = j + 1;
        assert(out@ =~= a@ + b@ + cs@.subrange(0, j as int));
    }
    assert(cs@.subrange(0, cs@.len() as int) =~= c@);
    crate::strings::string_of(&out)
}

} // verus!
