//! A declarative terminal user-interface runtime: the template compiler and
//! the reactive expansion engine.
//!
//! The compiler turns template source into tokens ([`lexer`]), expressions
//! ([`pratt`]), a flat statement list ([`parser`]), a sized instruction
//! stream ([`optimizer`]) and finally a tree of templates ([`template`]).
//! The engine expands templates against a state into a tree of widget nodes
//! that is true to the templates ([`nodes`], [`faithful`]), takes the
//! changes of the state into the tree frame by frame ([`frame`],
//! [`updates`]), and reads the attributes of the widgets ([`attributes`]) to
//! make the stock widgets of them ([`factories`], [`widgets`]).
pub mod token;
pub mod strings;
pub mod lexer;
pub mod prec;
pub mod pratt;
pub mod value;
pub mod constants;
pub mod testing;
pub mod parser;
pub mod optimizer;
pub mod path;
pub mod error;
pub mod template;
pub mod vm;
pub mod laws;
pub mod eval;
pub mod compiler;
pub mod layout;
pub mod node_id;
pub mod state;
pub mod store;
pub mod scope;
pub mod resolver;
pub mod widget;
pub mod attributes;
pub mod nodes;
pub mod tree;
pub mod updates;
pub mod faithful;
pub mod tree_laws;
pub mod frame;
pub mod layouts;
pub mod widgets;
pub mod factories;
pub mod scoping;
