//! What hook declarations are resolved to.

use vstd::prelude::*;
use vstd::utf8::*;
use crate::util::macho::image::ImageModel;
use crate::util::manifest::embedded::ManifestView;
use crate::util::modmeta::library::library_meta;
use crate::util::modmeta::record::HookView;
use super::image::preparable_image;
use super::report::{DeclarationView, ModLibrary};
use super::resolve::{
    manifest_symbol, pointer_at, target_of, with_hook, with_hooks, with_library, Resolution,
};

verus! {

/// Whether a manifest has a name as code at an address: bit 0 of its flags marks code.
pub open spec fn is_code(manifest: ManifestView, name: Seq<char>, address: u64) -> bool {
    manifest_symbol(manifest, name) matches Ok(found) && found.vmaddr == address && found.flags & 1
        != 0
}

/// Whether the vtable that a manifest has under a name holds an address in a slot. The slots stand
/// behind two words of the table.
pub open spec fn is_in_slot(
    image: ImageModel,
    manifest: ManifestView,
    vtable: Seq<char>,
    slot: u64,
    address: u64,
) -> bool {
    manifest_symbol(manifest, vtable) matches Ok(found) && found.vmaddr + 16 + slot <= u64::MAX && {
        let entry = (found.vmaddr + 16 + slot) as u64;
        pointer_at(image, entry) matches Ok(target) && target == address
    }
}

/// Whether a hook is for an address. Functions and names go by the code that the manifest has under
/// their symbol or name, and members by that of their symbol. A member without a symbol goes by its
/// display name, and where that is no code by its slot in the vtable.
pub open spec fn is_hook_for(
    image: ImageModel,
    manifest: ManifestView,
    hook: HookView,
    address: u64,
) -> bool {
    match hook {
        HookView::Fn { symbol } => symbol matches Some(name) && is_code(manifest, name, address),
        HookView::Name { name } => is_code(manifest, name, address),
        HookView::Mem { vtable, display, symbol, virtual_slot } => match symbol {
            Some(name) => is_code(manifest, name, address),
            None => {
                ||| is_code(manifest, display, address)
                ||| (forall|other: u64| !#[trigger] is_code(manifest, display, other)) && (
                virtual_slot matches Some(slot) && is_in_slot(
                    image,
                    manifest,
                    vtable,
                    slot,
                    address,
                ))
            },
        },
    }
}

/// A hook is resolved to the address that it is for, and to none where there is no such address.
pub proof fn law_hook_is_resolved(
    image: ImageModel,
    manifest: ManifestView,
    hook: HookView,
    address: u64,
)
    ensures
        is_hook_for(image, manifest, hook, address) <==> (target_of(
            image,
            manifest,
            hook,
        ) matches Ok(target) && target == address),
{
    if let HookView::Mem { vtable, display, symbol, virtual_slot } = hook {
        if symbol is None {
            match manifest_symbol(manifest, display) {
                Ok(found) => {
                    if found.flags & 1 != 0 {
                        assert(is_code(manifest, display, found.vmaddr));
                    }
                },
                Err(_) => {},
            }
        }
    }
}

/// Whether what is resolved belongs to the declarations: each of them has its address, and either an
/// address or a reason why there is none.
pub open spec fn is_consistent(so_far: Resolution) -> bool {
    &&& forall|r: int|
        0 <= r < so_far.resolved.len() ==> {
            let one = #[trigger] so_far.resolved[r];
            one.report_index < so_far.declarations.len()
                && so_far.declarations[one.report_index as int].resolved_target_vmaddr == Some(
                one.target,
            )
        }
    &&& forall|d: int|
        0 <= d < so_far.declarations.len() ==> {
            let one = #[trigger] so_far.declarations[d];
            one.resolved_target_vmaddr is Some <==> one.failure is None
        }
    &&& forall|d: int|
        0 <= d < so_far.declarations.len() && (#[trigger] so_far.declarations[d]).failure is None
            ==> exists|r: int|
            0 <= r < so_far.resolved.len() && (#[trigger] so_far.resolved[r]).report_index == d
}

proof fn lemma_one_hook(
    so_far: Resolution,
    image: ImageModel,
    manifest: ManifestView,
    library: ModLibrary,
    hook: HookView,
)
    requires
        is_consistent(so_far),
        so_far.declarations.len() < usize::MAX,
    ensures
        is_consistent(with_hook(so_far, image, manifest, library, hook)),
        with_hook(so_far, image, manifest, library, hook).declarations.len()
            == so_far.declarations.len() + 1,
        forall|address: u64| #[trigger]
            is_hook_for(image, manifest, hook, address) <==> with_hook(
                so_far,
                image,
                manifest,
                library,
                hook,
            ).declarations.last().resolved_target_vmaddr == Some(address),
{
    let next = with_hook(so_far, image, manifest, library, hook);
    let n = so_far.declarations.len() as int;
    assert forall|address: u64| #[trigger]
        is_hook_for(image, manifest, hook, address) <==> next.declarations.last().resolved_target_vmaddr
            == Some(address) by {
        law_hook_is_resolved(image, manifest, hook, address);
    }
    assert forall|r: int| 0 <= r < next.resolved.len() implies {
        let one = #[trigger] next.resolved[r];
        one.report_index < next.declarations.len()
            && next.declarations[one.report_index as int].resolved_target_vmaddr == Some(one.target)
    } by {
        if r < so_far.resolved.len() {
            assert(next.resolved[r] == so_far.resolved[r]);
        }
    }
    assert forall|d: int|
        0 <= d < next.declarations.len() && (#[trigger] next.declarations[d]).failure is None implies exists|
        r: int,
    |
        0 <= r < next.resolved.len() && (#[trigger] next.resolved[r]).report_index == d by {
        if d < n {
            assert(next.declarations[d] == so_far.declarations[d]);
            let r = choose|r: int|
                0 <= r < so_far.resolved.len() && (#[trigger] so_far.resolved[r]).report_index == d;
            assert(next.resolved[r].report_index == d);
        } else {
            let r = so_far.resolved.len() as int;
            assert(next.resolved[r].report_index == d);
        }
    }
}

/// The declarations of a library are its hooks, in their order and behind those before, each with the
/// address that it is for.
pub proof fn law_every_hook_is_declared(
    so_far: Resolution,
    image: ImageModel,
    manifest: ManifestView,
    library: ModLibrary,
    hooks: Seq<HookView>,
    n: int,
)
    requires
        is_consistent(so_far),
        0 <= n <= hooks.len(),
        so_far.declarations.len() + hooks.len() <= usize::MAX,
    ensures
        ({
            let all = with_hooks(so_far, image, manifest, library, hooks, n);
            let first = so_far.declarations.len();
            &&& is_consistent(all)
            &&& all.declarations.len() == first + n
            &&& forall|i: int| 0 <= i < first ==> all.declarations[i] == so_far.declarations[i]
            &&& forall|i: int, address: u64|
                0 <= i < n ==> (#[trigger] is_hook_for(image, manifest, hooks[i], address)
                    <==> is_declared(all.declarations, first + i, address))
        }),
    decreases n,
{
    if n > 0 {
        law_every_hook_is_declared(so_far, image, manifest, library, hooks, n - 1);
        let before = with_hooks(so_far, image, manifest, library, hooks, n - 1);
        let all = with_hooks(so_far, image, manifest, library, hooks, n);
        let first = so_far.declarations.len();
        lemma_one_hook(before, image, manifest, library, hooks[n - 1]);
        assert forall|i: int, address: u64| 0 <= i < n implies (#[trigger] is_hook_for(
            image,
            manifest,
            hooks[i],
            address,
        ) <==> is_declared(all.declarations, first + i, address)) by {
            if i < n - 1 {
                assert(all.declarations[first + i] == before.declarations[first + i]);
                assert(is_declared(before.declarations, first + i, address) <==> is_declared(
                    all.declarations,
                    first + i,
                    address,
                ));
            } else {
                assert(all.declarations[first + i] == all.declarations.last());
            }
        }
    }
}

/// Whether the declaration `i` has the address.
pub open spec fn is_declared(declarations: Seq<DeclarationView>, i: int, address: u64) -> bool {
    declarations[i].resolved_target_vmaddr == Some(address)
}

/// A library whose metadata can be read declares its hooks and nothing else; one whose metadata cannot
/// declares one failure.
pub proof fn law_library_declares_its_hooks(
    so_far: Resolution,
    image: ImageModel,
    manifest: ManifestView,
    library: ModLibrary,
)
    requires
        is_consistent(so_far),
        so_far.declarations.len() < usize::MAX,
        library.data matches Some(data) && library_meta(data@) matches Ok(meta)
            ==> so_far.declarations.len() + meta.records.hooks.len() <= usize::MAX,
    ensures
        ({
            let all = with_library(so_far, image, manifest, library);
            &&& is_consistent(all)
            &&& if library.data matches Some(data) && library_meta(data@) is Ok {
                let hooks = library_meta(library.data->Some_0@)->Ok_0.records.hooks;
                all.declarations.len() == so_far.declarations.len() + hooks.len()
            } else {
                &&& all.declarations.len() == so_far.declarations.len() + 1
                &&& all.declarations.last().failure is Some
                &&& all.resolved == so_far.resolved
            }
        }),
{
    let all = with_library(so_far, image, manifest, library);
    if library.data matches Some(data) && library_meta(data@) is Ok {
        let hooks = library_meta(library.data->Some_0@)->Ok_0.records.hooks;
        law_every_hook_is_declared(
            so_far,
            image,
            manifest,
            library,
            hooks,
            hooks.len() as int,
        );
    } else {
        let n = so_far.declarations.len() as int;
        assert forall|d: int|
            0 <= d < all.declarations.len() && (#[trigger] all.declarations[d]).failure is None implies exists|
            r: int,
        |
            0 <= r < all.resolved.len() && (#[trigger] all.resolved[r]).report_index == d by {
            assert(d < n);
            assert(all.declarations[d] == so_far.declarations[d]);
            let r = choose|r: int|
                0 <= r < so_far.resolved.len() && (#[trigger] so_far.resolved[r]).report_index == d;
            assert(all.resolved[r].report_index == d);
        }
    }
}

/// The images that are prepared are arm64 images without pointer authentication, which is neither in
/// the subtype nor in its capability bits, for macOS, iOS or tvOS.
pub proof fn law_prepared_images_are_supported(data: Seq<u8>)
    requires
        preparable_image(data) is Ok,
    ensures
        ({
            let image = preparable_image(data)->Ok_0;
            &&& image.cpu_type == 0x0100_000c
            &&& image.cpu_subtype % 0x100_0000 != 2
            &&& image.cpu_subtype / 0x100_0000 % 16 == 0
            &&& super::image::platforms_of(data) matches Ok(platforms) && (platforms.contains(1)
                || platforms.contains(2) || platforms.contains(3))
        }),
{
    let subtype = preparable_image(data)->Ok_0.cpu_subtype;
    assert(subtype & 0x00ff_ffff == subtype % 0x100_0000) by (bit_vector);
    assert(subtype & 0x0f00_0000 == 0 ==> subtype / 0x100_0000 % 16 == 0) by (bit_vector);
    let platforms = super::image::platforms_of(data)->Ok_0;
    let i = choose|i: int| 0 <= i < platforms.len() && 1 <= #[trigger] platforms[i] <= 3;
    assert(platforms.contains(platforms[i]));
}

} // verus!
