use openrgb_fade::calibration::Calibration;
use openrgb_fade::connection::retry_delay_ms;
use openrgb_fade::registry::ActiveDevices;
use openrgb_fade::worker::{step_worker, WorkerEvent, WorkerPhase};

#[test]
fn retry_backoff() {
    assert_eq!(retry_delay_ms(0), 0);
    assert_eq!(retry_delay_ms(1), 250);
    assert_eq!(retry_delay_ms(39), 9750);
    assert_eq!(retry_delay_ms(40), 10000);
    assert_eq!(retry_delay_ms(41), 10000);
    assert_eq!(retry_delay_ms(u64::MAX), 10000);
}

#[test]
fn device_loss_signals_once_and_evicts() {
    let mut reg: ActiveDevices<u32> = ActiveDevices::new();
    reg.insert("dev0".to_string(), 1);
    reg.insert("dev1".to_string(), 2);
    let mut phase = WorkerPhase::Init;
    let mut signals = 0;
    for ev in [WorkerEvent::InitOk, WorkerEvent::ExecuteOk, WorkerEvent::ExecuteFailed, WorkerEvent::ExecuteFailed, WorkerEvent::InputClosed] {
        let (next, signal) = step_worker(phase, ev);
        phase = next;
        if signal {
            signals += 1;
        }
    }
    assert_eq!(phase, WorkerPhase::Done);
    assert_eq!(signals, 1);
    let removed = reg.evict(&vec![true, false]);
    assert_eq!(removed, vec!["dev0".to_string()]);
    assert!(!reg.contains(&"dev0".to_string()));
    assert!(reg.contains(&"dev1".to_string()));
    assert_eq!(reg.len(), 1);
    assert_eq!(*reg.handle(0), 2);
    assert_eq!(reg.id(0), "dev1");
}

#[test]
fn init_failure_signals() {
    assert_eq!(step_worker(WorkerPhase::Init, WorkerEvent::InitFailed), (WorkerPhase::Done, true));
    assert_eq!(step_worker(WorkerPhase::Init, WorkerEvent::InitOk), (WorkerPhase::Running, false));
    assert_eq!(step_worker(WorkerPhase::Running, WorkerEvent::InputClosed), (WorkerPhase::Done, true));
    assert_eq!(step_worker(WorkerPhase::Done, WorkerEvent::ExecuteFailed), (WorkerPhase::Done, false));
}

#[test]
fn registry_filters_and_replaces() {
    let mut reg: ActiveDevices<u32> = ActiveDevices::new();
    reg.insert("a".to_string(), 1);
    let locs = vec!["b".to_string(), "a".to_string(), "c".to_string()];
    assert_eq!(reg.unclaimed(&locs), vec![0, 2]);
    reg.insert("a".to_string(), 9);
    assert_eq!(reg.len(), 1);
    assert_eq!(*reg.handle(0), 9);
    assert_eq!(reg.position(&"a".to_string()), Some(0));
    assert_eq!(reg.position(&"z".to_string()), None);
    let removed = reg.evict(&vec![false]);
    assert!(removed.is_empty());
    assert_eq!(reg.len(), 1);
}

#[test]
fn calibration_records_novel_keys() {
    let mut cal = Calibration::new(3);
    assert_eq!(cal.current_led(), Some(0));
    assert!(cal.offer(30));
    assert_eq!(cal.current_led(), Some(1));
    assert!(!cal.offer(30));
    assert!(cal.offer(31));
    assert!(cal.offer(32));
    assert_eq!(cal.current_led(), None);
    assert!(!cal.offer(33));
    let m = cal.finish();
    assert_eq!(m.as_file_string(), "30\n31\n32");
    assert_eq!(m.get_led(31), Some(1));
}
