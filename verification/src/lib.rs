pub mod algorithm;
pub mod bubblesort;
pub mod channel;
pub mod data;
pub mod events;
pub mod graphics;
pub mod insertionsort;
pub mod list;
pub mod quicksort;
pub mod quicksort2;
pub mod renderer;
pub mod selectionsort;
pub mod shellsort;
