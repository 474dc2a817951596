//! A list of dance events: which of them pass a visitor's filters, what there
//! is to choose from, and how the events are put in order, gathered by month
//! and turned into calendar entries.
//!
//! The events are held in [`events::Events`]; [`filters::Filters`] says which
//! of them are wanted. [`index`] puts together what the pages and feeds of a
//! site show, and [`importers`] makes events from the records of other
//! listings. Dates and times are plain numbers, see [`time`]; for the time of
//! day, the names of the months, dates written as text and the clocks of
//! Brussels, `chrono` is asked.

pub mod calendar;
pub mod dancestyle;
pub mod event;
pub mod events;
pub mod filters;
pub mod grouping;
pub mod importers;
pub mod index;
pub mod sorting;
pub mod text;
pub mod time;
