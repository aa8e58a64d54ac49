use sysmon::metrics::cpu::{aggregate_split, parse_stat, tick_deltas, CpuTicks};
use sysmon::metrics::cpuinfo::cpuinfo_fields;
use sysmon::metrics::disk::{block_device, disk_names, partitions_of, MountUsage};
use sysmon::metrics::gpu::{nvidia_app_fields, nvidia_gpu_rows, sclk_text, sysfs_kept};
use sysmon::metrics::mem::meminfo_field;
use sysmon::metrics::temp::sensor_label;
use sysmon::order::{sort_names, sort_numbered, sort_partitions};

const STAT_A: &str = "cpu  50258281 1897484 28974876 395725085 1160894 2440253 2784590 0 0 0
cpu0 3631488 151633 2651303 32722735 193867 357924 592820 0 0 0
cpu1 4196869 154460 2281135 33136791 112593 165544 217775 0 0 0
cpu2 4221943 165213 2284805 33120102 100843 168482 188885 0 0 0
intr 1234567 0 0
ctxt 987654321
";

const STAT_B: &str = "cpu  50258306 1897484 28974876 395725160 1160894 2440253 2784590 0 0 0
cpu0 3631538 151633 2651303 32722785 193867 357924 592820 0 0 0
cpu1 4196869 154460 2281135 33136791 112593 165544 217775 0 0 0
cpu2 4222043 165213 2284805 33120102 100843 168482 188885 0 0 0
intr 1234999 0 0
ctxt 987654999
";

const CPUINFO: &str = "processor\t: 0
vendor_id\t: GenuineIntel
model name\t: Intel(R) Core(TM) i5-10400T CPU @ 2.00GHz
cpu MHz\t\t: 3214.864
flags\t\t: fpu vme de pse
processor\t: 1
vendor_id\t: GenuineIntel
model name\t: Intel(R) Core(TM) i5-10400T CPU @ 2.00GHz
cpu MHz\t\t: 3231.064
flags\t\t: fpu vme de pse
";

const MEMINFO: &str = "MemTotal:       32697628 kB
MemFree:         2935564 kB
Buffers:            1912 kB
Cached:         22150232 kB
SwapCached:            0 kB
SwapTotal:       8388604 kB
SwapFree:        6245228 kB
Shmem:           2286264 kB
SReclaimable:     669284 kB
";

#[test]
fn primera_muestra_no_tiene_delta() {
    let d = tick_deltas(&Vec::new(), &parse_stat(STAT_A));
    assert_eq!(d, vec![None, None, None, None]);
}

#[test]
fn segunda_muestra_da_los_deltas() {
    let d = tick_deltas(&parse_stat(STAT_A), &parse_stat(STAT_B));
    // agregado 25/100, cpu0 50/100, cpu1 sin cambios, cpu2 100/100
    assert_eq!(d, vec![Some((25, 100)), Some((50, 100)), None, Some((100, 100))]);
}

#[test]
fn contador_que_no_avanza_no_tiene_delta() {
    let a = parse_stat(STAT_A);
    assert_eq!(tick_deltas(&a, &a), vec![None, None, None, None]);
    let back = vec![CpuTicks { total: 10, active: 9, user: 0, system: 0 }];
    let now = vec![CpuTicks { total: 20, active: 5, user: 0, system: 0 }];
    assert_eq!(tick_deltas(&back, &now), vec![Some((0, 10))]);
}

#[test]
fn user_suma_nice_y_system_va_aparte() {
    let t = parse_stat(STAT_A);
    assert_eq!(t[0].user, 50_258_281 + 1_897_484);
    assert_eq!(t[0].system, 28_974_876);
}

#[test]
fn user_y_system_del_agregado() {
    // Between the two samples only `user` moves: +25 of 100.
    assert_eq!(aggregate_split(&parse_stat(STAT_A), &parse_stat(STAT_B)), Some((25, 0, 100)));
    assert_eq!(aggregate_split(&Vec::new(), &parse_stat(STAT_A)), None);
    let a = parse_stat(STAT_A);
    assert_eq!(aggregate_split(&a, &a), None);
    let before = vec![CpuTicks { total: 1000, active: 0, user: 0, system: 0 }];
    let after = vec![CpuTicks { total: 1200, active: 100, user: 60, system: 40 }];
    assert_eq!(aggregate_split(&before, &after), Some((60, 40, 200)));
    let back = vec![CpuTicks { total: 1200, active: 100, user: 60, system: 40 }];
    let now = vec![CpuTicks { total: 1300, active: 100, user: 50, system: 40 }];
    assert_eq!(aggregate_split(&back, &now), Some((0, 0, 100)));
}

#[test]
fn toma_el_primer_modelo_y_los_relojes() {
    let f = cpuinfo_fields(CPUINFO);
    assert_eq!(f.model, "Intel(R) Core(TM) i5-10400T CPU @ 2.00GHz");
    assert_eq!(f.mhz, vec!["3214.864".to_string(), "3231.064".to_string()]);
}

#[test]
fn sin_model_name_queda_vacio() {
    let f = cpuinfo_fields("processor\t: 0\nBogoMIPS\t: 108.00\n");
    assert_eq!(f.model, "");
    assert!(f.mhz.is_empty());
}

#[test]
fn campos_de_meminfo_por_nombre() {
    assert_eq!(meminfo_field(MEMINFO, "MemTotal").as_deref(), Some("32697628"));
    // SwapCached no se confunde con Cached.
    assert_eq!(meminfo_field(MEMINFO, "Cached").as_deref(), Some("22150232"));
    assert_eq!(meminfo_field(MEMINFO, "Hugepages"), None);
    assert_eq!(meminfo_field("MemTotal:\n", "MemTotal"), None);
}

#[test]
fn rotulos_de_sensores() {
    assert_eq!(sensor_label(Some("coretemp"), Some("Core 0"), 2), "coretemp/Core 0");
    assert_eq!(sensor_label(Some("acpitz"), None, 1), "acpitz/temp1");
    assert_eq!(sensor_label(None, Some(""), 12), "hwmon/temp12");
}

#[test]
fn orden_numerico_estable() {
    let v = vec![(10, "c"), (2, "a"), (10, "d"), (1, "b")];
    assert_eq!(sort_numbered(v), vec![(1, "b"), (2, "a"), (10, "c"), (10, "d")]);
}

#[test]
fn orden_de_nombres_y_particiones() {
    let s = |v: &[&str]| v.iter().map(|x| x.to_string()).collect::<Vec<_>>();
    assert_eq!(sort_names(s(&["sdb", "nvme0n1", "sda"])), s(&["nvme0n1", "sda", "sdb"]));
    assert_eq!(sort_partitions(s(&["sda10", "sda2", "sda1"])), s(&["sda1", "sda2", "sda10"]));
}

#[test]
fn inventario_de_sys_block() {
    let s = |v: &[&str]| v.iter().map(|x| x.to_string()).collect::<Vec<_>>();
    assert_eq!(
        disk_names(s(&["sdb", "loop0", "md127", "nvme0n1", "sda", "dm-0"])),
        s(&["nvme0n1", "sda", "sdb"])
    );
    assert_eq!(
        partitions_of("sda", s(&["sda10", "queue", "sda", "sda2", "size", "sda1"])),
        s(&["sda1", "sda2", "sda10"])
    );
}

#[test]
fn dispositivo_con_modelo_transporte_y_uso() {
    let usage = MountUsage {
        device: "/dev/sda3".to_string(),
        mount: "/".to_string(),
        size: 1,
        used: 1,
        avail: 0,
        percent: 100,
    };
    let usb = "/sys/devices/pci0000:00/0000:00:14.0/usb2/2-1/host6/block/sda";
    let parts = vec!["sda1".to_string(), "sda3".to_string()];
    let d = block_device("sda", usb, 1000, "Kingston", true, &parts, std::slice::from_ref(&usage));
    assert_eq!(d.name, "Kingston");
    assert_eq!(d.path, "/dev/sda");
    assert_eq!(d.size, 512_000);
    assert_eq!(d.detail, "USB • Extraíble");
    assert_eq!(d.usage, Some(usage));
    let v = block_device("vdb", "/sys/devices/virtual/block/vdb", 0, "", false, &[], &[]);
    assert_eq!(v.name, "vdb");
    assert_eq!(v.detail, "Disco");
    assert_eq!(v.usage, None);
}

/// The usage in percent of each entry, as the CPU meter shows it.
fn percents(prev: &Vec<CpuTicks>, now: &Vec<CpuTicks>) -> Vec<f32> {
    tick_deltas(prev, now)
        .into_iter()
        .map(|d| match d {
            Some((a, t)) => (a as f32 / t as f32 * 100.0).clamp(0.0, 100.0),
            None => 0.0,
        })
        .collect()
}

#[test]
fn primera_muestra_da_cero() {
    let p = percents(&Vec::new(), &parse_stat(STAT_A));
    assert_eq!(p[0], 0.0);
    assert_eq!(p[1..].to_vec(), vec![0.0, 0.0, 0.0]);
}

#[test]
fn segunda_muestra_calcula_el_delta() {
    let p = percents(&parse_stat(STAT_A), &parse_stat(STAT_B));
    assert_eq!(p[0], 25.0);
    assert_eq!(p[1..].to_vec(), vec![50.0, 0.0, 100.0]);
}

#[test]
fn contador_que_no_avanza_da_cero() {
    let a = parse_stat(STAT_A);
    assert_eq!(percents(&a, &a)[0], 0.0);
}

#[test]
fn toma_el_primer_modelo_y_promedia_el_reloj() {
    let f = cpuinfo_fields(CPUINFO);
    assert_eq!(f.model, "Intel(R) Core(TM) i5-10400T CPU @ 2.00GHz");
    let clocks: Vec<f64> = f.mhz.iter().filter_map(|v| v.parse::<f64>().ok()).filter(|m| *m > 0.0).collect();
    let mean = clocks.iter().sum::<f64>() / clocks.len() as f64;
    assert!((mean - 3222.964).abs() < 0.001);
}

fn mib(name: &str) -> f64 {
    meminfo_field(MEMINFO, name).and_then(|v| v.parse::<f64>().ok()).unwrap_or(0.0) / 1024.0
}

#[test]
fn parsea_los_campos_en_mib() {
    assert!((mib("MemTotal") - 31_931.277).abs() < 0.01);
    assert!((mib("MemFree") - 2_866.769).abs() < 0.01);
}

#[test]
fn no_confunde_cached_con_swapcached() {
    // SwapCached is in the sample with 0: a loose matcher would change `cached`.
    let cached = mib("Cached") + mib("SReclaimable") - mib("Shmem");
    assert!(cached > 20_000.0);
}

#[test]
fn reloj_de_pp_dpm_sclk() {
    let clock = |raw: &str| sclk_text(raw).and_then(|v| v.parse::<f64>().ok()).unwrap_or(0.0);
    assert_eq!(clock("0: 500Mhz\n1: 1200Mhz *\n2: 1600Mhz\n"), 1200.0);
    assert_eq!(clock("0: 500Mhz\n"), 0.0);
}

#[test]
fn parsea_nvidia_smi_y_tolera_na() {
    let raw = "NVIDIA GeForce RTX 3060, 12, 810, 48, 1024, 12288\nNVIDIA T400, [N/A], [N/A], 40, 100, 2048\nbasura\n";
    let num = |s: &str| s.parse::<f64>().unwrap_or(0.0);
    let gpus = nvidia_gpu_rows(raw);
    assert_eq!(gpus.len(), 2);
    assert_eq!(gpus[0][0], "NVIDIA GeForce RTX 3060");
    assert_eq!((num(&gpus[0][1]), num(&gpus[0][2]), num(&gpus[0][3])), (12.0, 810.0, 48.0));
    assert_eq!((num(&gpus[0][4]), num(&gpus[0][5])), (1024.0, 12288.0));
    assert_eq!(num(&gpus[1][1]), 0.0);
}

#[test]
fn parsea_procesos_de_nvidia() {
    let raw = "4321, /usr/bin/steam, 512\n0, fantasma, 10\n77, , 5\n";
    let apps = nvidia_app_fields(raw);
    assert_eq!(apps.len(), 1);
    assert_eq!((apps[0].0, apps[0].1.as_str()), (4321, "/usr/bin/steam"));
    assert_eq!(apps[0].2.parse::<f64>().unwrap(), 512.0);
}

#[test]
fn nvidia_primero_y_sin_duplicados() {
    let nvidia = vec![("nvidia0".to_string(), "NVIDIA RTX".to_string())];
    let sysfs = vec![
        ("card0".to_string(), "AMD".to_string()),
        ("card1".to_string(), "NVIDIA RTX".to_string()),
    ];
    let kept = sysfs_kept(&nvidia, &sysfs);
    let mut ids: Vec<&str> = nvidia.iter().map(|d| d.0.as_str()).collect();
    ids.extend(sysfs.iter().zip(&kept).filter(|(_, k)| **k).map(|(d, _)| d.0.as_str()));
    assert_eq!(ids, vec!["nvidia0", "card0"]);
}
