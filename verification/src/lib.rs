pub mod union_find;
pub mod arbol;
pub mod evaluacion;
pub mod azar;
pub mod chimerge;
pub mod limpieza;
pub mod texto;
pub mod clustering;
