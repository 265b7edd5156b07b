//! Lowers ECMAScript 2015 destructuring to plain declarations and assignments.
//!
//! [`destructuring::destructuring`] makes the pass, and [`destructuring::Destructuring::try_fold`]
//! runs it on a tree of [`ast`]. What it makes of a tree is said by [`rules`].
//!
//! ```js
//! let {x, y} = obj;
//! let [a, b, ...rest] = arr;
//! ```
//!
//! becomes
//!
//! ```js
//! let _obj = obj,
//!     x = _obj.x,
//!     y = _obj.y;
//! let _arr = arr,
//!     _arr2 = _toArray(_arr),
//!     a = _arr2[0],
//!     b = _arr2[1],
//!     rest = _arr2.slice(2);
//! ```
//!
//! An array is only made of the value of a name where the pattern ends in a rest element: without
//! one, the elements are read from the name itself. The value of an object pattern is checked where
//! it can be null, unless it is that of a name of the program and properties are read from it. So
//! `let {} = obj` becomes
//!
//! ```js
//! let ref = obj ? obj : _throw(new TypeError("Cannot destructure 'undefined' or 'null'"));
//! ```
//!
//! What holds of the pass as a whole stands in the modules of laws.
//!
//! What the output does: [`meaning`] says what a pattern asks for and what plain declarations and
//! assignments do, as traces of what is computed and bound. [`reading`] says that a lowered
//! declaration does what its patterns ask for, and [`writing`] the same of an assignment.
//! [`keeping`] says which nodes and statements stay, and in which order, and [`unpacking`] how
//! parameters are taken apart. [`lowered`] says that no pattern is left in a program whose patterns
//! stand where [`reach`] has them, [`shrink`] that destructuring is never added, and [`values`]
//! that an assignment keeps its value.
//!
//! The names: [`growth`] says that new names are told from all others, and [`bindings`] that the
//! same names are declared.
//!
//! Several runs: [`quiet`] says that a lowered declaration stays as it is, [`renaming`] that what
//! was made before does not matter, and [`joining`] that lists of declarators can be lowered one
//! after the other. That the bounds in the rules always hold stands in [`bounds`].
pub mod ast;
pub mod bindings;
pub mod bounds;
pub mod destructuring;
pub mod factory;
pub mod growth;
pub mod hygiene;
pub mod joining;
pub mod keeping;
pub mod lowered;
pub mod meaning;
pub mod measure;
pub mod nullness;
pub mod quiet;
pub mod reach;
pub mod reading;
pub mod renaming;
pub mod rules;
pub mod shrink;
pub mod standing;
pub mod unpacking;
pub mod values;
pub mod visitor;
pub mod weighing;
pub mod writing;
