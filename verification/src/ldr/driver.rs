//! Drivers: from a file image to a driver object and back.
//!
//! [`crate::ldr::load::load`] maps an image; the caller creates the driver object
//! and runs the entry point; here the two are joined, and taken apart again.
use crate::ldr::load::LoadedImage;
use crate::mm::phys::PhysicalMemory;
use crate::mm::pool::{live_index, pool_free_any, release_block, release_frames, Pool};
use crate::ob::{alive, dereferenced, found, ob_dereference_object, Deletion, ObjectManager};
use crate::rtl::NtStatus;
use vstd::prelude::*;

verus! {

/// A driver and the image it runs from.
#[derive(Debug, Clone, Copy, PartialEq, Eq, Structural)]
pub struct LoadedDriver {
    /// The driver object.
    pub driver: u64,
    /// Address of the image.
    pub image_base: u64,
    pub image_size: usize,
}

/// A mapped driver after its entry point ran: `driver` is the driver object, or
/// the status that the entry point failed with. The image stays either way.
pub fn ldr_load_driver(image: &LoadedImage, driver: Result<u64, NtStatus>) -> (r: Result<
    LoadedDriver,
    NtStatus,
>)
    ensures
        match driver {
            Ok(d) => r is Ok && r->Ok_0.driver == d && r->Ok_0.image_base == image.base
                && r->Ok_0.image_size == image.image@.len(),
            Err(e) => r == Err::<LoadedDriver, NtStatus>(e),
        },
{
    match driver {
        Ok(d) => Ok(
            LoadedDriver { driver: d, image_base: image.base, image_size: image.image.len() },
        ),
        Err(e) => Err(e),
    }
}

/// Unload a driver, after its own unload routine ran: drop the driver object's
/// reference and free the image. `window` is where physical memory is mapped.
pub fn ldr_unload_driver(
    om: &mut ObjectManager,
    pool: &mut Pool,
    memory: &mut PhysicalMemory,
    window: u64,
    loaded: &LoadedDriver,
) -> (r: Option<Deletion>)
    requires
        old(om).wf(),
        old(pool).wf(old(memory)),
        alive(old(om).objects@, loaded.driver),
        window < loaded.image_base,
        live_index(old(pool)@.live, (loaded.image_base - window) as u64, 0) is Some,
    ensures
        final(om).wf(),
        final(om).types@ == old(om).types@,
        final(pool).wf(final(memory)),
        ({
            let (objects, last) = dereferenced(old(om).objects@, loaded.driver);
            let k = found(old(om).objects@, loaded.driver, 0)->Some_0;
            &&& final(om).objects@ == objects
            &&& r == if last {
                Some(
                    Deletion {
                        body: loaded.driver,
                        delete: old(om).types@[old(om).objects@[k].object_type as int].delete,
                    },
                )
            } else {
                None
            }
        }),
        ({
            let k = live_index(old(pool)@.live, (loaded.image_base - window) as u64, 0)->0;
            &&& final(pool)@ == release_block(old(pool)@, k)
            &&& final(memory)@ == release_frames(old(memory)@, old(pool)@.live[k])
        }),
{
    let r: Option<Deletion> = ob_dereference_object(om, loaded.driver);
    pool_free_any(pool, memory, loaded.image_base - window);
    r
}

} // verus!
