//! Elective-course bookkeeping for students of FMI at Sofia University: parsing the
//! faculty's pages and configuration files, and distributing passed elective courses
//! over the per-category requirements of a specialty.

pub mod error;
pub mod seq_facts;
pub mod text;
pub mod category;
pub mod outside;
pub mod fmi_elective;
pub mod susi_course;
pub mod susi_fetch;
pub mod config;
pub mod common;
pub mod pairing;
pub mod report;
pub mod course_arranger;
pub mod arrangement_laws;
