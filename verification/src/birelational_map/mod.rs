use vstd::prelude::*;

pub mod any_value;
pub mod links;
pub mod slots;
pub mod map;
pub mod map_laws;
pub mod anyvec_map;
pub mod anyvec_laws;

pub use map::BirelationalMap;



verus! {

/// Something that knows the identifier under which a birelational map files it.
pub trait BirelationalId<T> {
    fn get_id(&self) -> T;
}

impl BirelationalId<usize> for usize {
    /// A `usize` is its own identifier.
    fn get_id(&self) -> (id: usize)
        ensures
            id == *self,
    {
        *self
    }
}

} // verus!
