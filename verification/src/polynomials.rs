pub mod closed_forms;
