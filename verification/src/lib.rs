//! Indentation and vertical alignment of Clojure, ClojureScript and EDN forms.
pub mod alignable;
pub mod aligners;
pub mod engine;
pub mod helpers;
pub mod model;
pub mod syntax;
