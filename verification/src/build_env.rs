//! Decisions of the build-support layer, taken over environment values that
//! the caller reads and passes in as plain options.

use vstd::prelude::*;

verus! {

/// Whether a set `FORCE_KWUI_BINARIES_DOWNLOAD` forces downloading prebuilt
/// binaries.
pub fn force_kwui_binaries_download(var: Option<String>) -> (r: bool)
    ensures
        r == (var is Some),
{
    var.is_some()
}

/// The URL template configured under `KWUI_BINARIES_URL`, if any.
pub fn kwui_binaries_url(var: Option<String>) -> (r: Option<String>)
    ensures
        r == var,
{
    var
}

/// The default URL template the binaries are downloaded from.
pub fn kwui_binaries_url_default() -> (r: String)
    ensures
        r@ == "https://github.com/wanghoi/kwui-binaries/releases/download/{tag}/kwui-binaries-{key}.tar.gz"@,
{
    let s: &str =
        "https://github.com/wanghoi/kwui-binaries/releases/download/{tag}/kwui-binaries-{key}.tar.gz";
    s.to_owned()
}

/// Whether a set `FORCE_KWUI_BUILD` forces building even when a binary is
/// available.
pub fn force_kwui_build(var: Option<String>) -> (r: bool)
    ensures
        r == (var is Some),
{
    var.is_some()
}

/// Whether a set `KWUI_USE_SYSTEM_LIBRARIES` selects the system's libraries
/// over building the vendored ones.
pub fn use_system_libraries(var: Option<String>) -> (r: bool)
    ensures
        r == (var is Some),
{
    var.is_some()
}

/// The ninja command configured under `KWUI_NINJA_COMMAND`, if any.
pub fn ninja_command(var: Option<String>) -> (r: Option<String>)
    ensures
        r == var,
{
    var
}

/// The cmake command configured under `KWUI_CMAKE_COMMAND`, if any.
pub fn cmake_command(var: Option<String>) -> (r: Option<String>)
    ensures
        r == var,
{
    var
}

/// The platform fallback that has no special build configuration.
pub struct Generic;

/// Extra libraries the generic platform links: none.
pub fn link_libraries() -> (r: Vec<String>)
    ensures
        r@.len() == 0,
{
    Vec::new()
}

} // verus!
