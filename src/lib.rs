pub mod mediator;
pub mod heap_traits;
pub mod editable_binary_heap;
pub mod editable_weak_heap;
