use mdbook_tracey::worker::push_log_line;

// r[verify obs.log.batch-64-100ms]
#[test]
fn batches_up_to_64() {
    push_log_line();
}

// r[verify obs.log.periodic-flush]
#[test]
fn flushes_every_30s() {
    push_log_line();
}
