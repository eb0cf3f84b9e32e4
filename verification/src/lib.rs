//! The view model of a directory index page: the request path is decoded into
//! segments, the entries of the directory are ordered, and the breadcrumb
//! trail, the rows and the links that toggle the sort order are laid out as
//! plain data for a template to render.

pub mod breadcrumb;
pub mod entry;
pub mod error;
pub mod localtime;
pub mod options;
pub mod order;
pub mod page;
pub mod path;
pub mod percent;
pub mod query;
pub mod ranking;
pub mod scanner;
pub mod sorter;
pub mod text;
