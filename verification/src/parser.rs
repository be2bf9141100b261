//! From text to declarations: positions, tokens, the parse tree and the
//! declarations lowered from it, and the scanner for comments.

pub mod commentsparser;
pub mod grammar;
pub mod itemposition;

pub mod layout;
pub mod lowering;
pub mod parser;
pub mod parsetree;
pub mod patherror;
pub mod position;
pub mod propsimple;
pub mod proptypesimple;

pub mod token;
pub mod tokenstream;
pub mod treevariant;
pub mod valuetypeparser;

